//! What holds of every restack and every grouping.

use vstd::prelude::*;

use crate::mixer::blocks;
use crate::mixer::grouping;
use crate::mixer::nesting;
use crate::mixer::nesting::{ChannelInfo, GroupInfo, Name};
use crate::mixer::stack;
use crate::mixer::types;
use crate::mixer::types::{Channel, ChannelGroup, Mixer};
use crate::order;

verus! {

/// Moving an item of a stack neither loses nor adds one.
pub proof fn law_move_keeps_layers<T>(s: Seq<T>, from: int, to: int)
    requires
        0 <= from,
        0 <= to,
    ensures
        blocks::moved(s, from, to).to_multiset() == s.to_multiset(),
        blocks::moved(s, from, to).len() == s.len(),
{
    broadcast use vstd::seq_lib::group_to_multiset_ensures;

    if from < s.len() && from != to {
        let at = blocks::last_or(to, s.len());
        let less = s.remove(from);
        vstd::seq_lib::to_multiset_insert(less, at, s[from]);
        vstd::seq_lib::to_multiset_remove(s, from);
        assert(s.contains(s[from]));
        assert(blocks::moved(s, from, to).to_multiset() =~= s.to_multiset());
    }
}

/// Moving an item of a stack back restores the order.
pub proof fn law_move_is_undone<T>(s: Seq<T>, from: int, to: int)
    requires
        0 <= from < s.len(),
        0 <= to < s.len(),
    ensures
        blocks::moved(blocks::moved(s, from, to), to, from) == s,
{
    assert(blocks::moved(blocks::moved(s, from, to), to, from) =~= s);
}

/// A restack moves the layer and changes of it nothing but the group it is in, so that
/// every parameter prefix survives.
pub proof fn law_restack_only_moves<E, M>(
    channels: Seq<Channel<E, M>>,
    gs: Seq<GroupInfo>,
    from: int,
    to: int,
    i: int,
)
    requires
        0 <= from,
        0 <= to,
        0 <= i < channels.len(),
    ensures
        stack::restacked(channels, gs, from, to).len() == channels.len(),
        stack::restacked(channels, gs, from, to)[i] == (Channel {
            group: stack::restacked(channels, gs, from, to)[i].group,
            ..blocks::moved(channels, from, to)[i]
        }),
{
}

/// Whether what lies inside a group, at any depth, is a contiguous span of the stack.
pub open spec fn is_span(cs: Seq<ChannelInfo>, gs: Seq<GroupInfo>, name: Name) -> bool {
    forall|a: int, b: int, c: int|
        0 <= a < b < c < cs.len() && #[trigger] nesting::inside(gs, cs[a], name)
            && #[trigger] nesting::inside(gs, cs[c], name) ==> #[trigger] nesting::inside(
            gs,
            cs[b],
            name,
        )
}

/// A group that is a contiguous span of the stack stays one when a member is restacked:
/// within the span the member stays, and out of it it leaves the group.
pub proof fn law_restacked_group_is_a_span<E, M>(
    channels: Seq<Channel<E, M>>,
    gs: Seq<GroupInfo>,
    from: int,
    to: int,
    name: Name,
)
    requires
        0 <= from < channels.len(),
        0 <= to,
        types::name_of(channels[from].group) == Some(name),
        is_span(grouping::infos(channels), gs, name),
    ensures
        is_span(grouping::infos(stack::restacked(channels, gs, from, to)), gs, name),
{
    if from != to {
        let cs = grouping::infos(channels);
        let end = grouping::infos(stack::restacked(channels, gs, from, to));
        let p = blocks::last_or(to, channels.len());
        let strays = stack::off_span(cs, gs, from, p);
        assert(nesting::up(gs, cs[from].group, 0) == Some(name));
        assert(nesting::inside(gs, cs[from], name));
        if strays {
            lemma_ungrouped_is_outside(gs, end[p], name);
        }
        // Where the layer that ended up at a place, other than the moved one, came from.
        let was = |i: int| {
            let r = if i < p {
                i
            } else {
                i - 1
            };
            if r < from {
                r
            } else {
                r + 1
            }
        };
        assert forall|i: int| 0 <= i < end.len() && i != p implies #[trigger] end[i]
            == cs[was(i)] by {}
        assert forall|a: int, b: int, c: int|
            0 <= a < b < c < end.len() && #[trigger] nesting::inside(gs, end[a], name)
                && #[trigger] nesting::inside(
                gs,
                end[c],
                name,
            ) implies #[trigger] nesting::inside(gs, end[b], name) by {
            if a != p && c != p {
                assert(nesting::inside(gs, cs[was(a)], name));
                assert(nesting::inside(gs, cs[was(c)], name));
                if b != p {
                    assert(was(a) < was(b) < was(c));
                }
            } else if a == p {
                assert(nesting::inside(gs, cs[was(c)], name));
                if p > from {
                    assert(was(b) == b && was(c) == c);
                } else {
                    assert(stack::reaches(cs, gs, name, 0, p + 1));
                    let x = choose|x: int|
                        0 <= x < cs.len() && 0 <= x < p + 1 && #[trigger] nesting::inside(
                            gs,
                            cs[x],
                            name,
                        );
                    assert(x <= was(b) < was(c));
                }
            } else {
                assert(nesting::inside(gs, cs[was(a)], name));
                if p < from {
                    assert(was(a) == a && was(b) == b);
                } else {
                    assert(stack::reaches(cs, gs, name, p, cs.len() as int));
                    let y = choose|y: int|
                        0 <= y < cs.len() && p <= y < cs.len() && #[trigger] nesting::inside(
                            gs,
                            cs[y],
                            name,
                        );
                    assert(was(a) < was(b) <= y);
                }
            }
        }
    }
}

/// A layer in no group lies inside none.
proof fn lemma_ungrouped_is_outside(gs: Seq<GroupInfo>, c: ChannelInfo, name: Name)
    requires
        c.group is None,
    ensures
        !nesting::inside(gs, c, name),
{
    assert forall|k: nat| #[trigger] nesting::up(gs, c.group, k) is None by {
        lemma_up_from_nowhere(gs, k);
    }
}

proof fn lemma_up_from_nowhere(gs: Seq<GroupInfo>, k: nat)
    ensures
        nesting::up(gs, None, k) is None,
    decreases k,
{
    if k > 0 {
        lemma_up_from_nowhere(gs, (k - 1) as nat);
    }
}

/// Moving a block neither loses nor adds a layer.
pub proof fn law_block_keeps_layers<T>(s: Seq<T>, places: Seq<int>, anchor: int)
    requires
        grouping::can_gather(s, places, anchor),
    ensures
        blocks::block_moved(s, places, anchor).to_multiset() == s.to_multiset(),
        blocks::block_moved(s, places, anchor).len() == s.len(),
{
    let (rest, taken) = blocks::lifted(s, places);
    let at = blocks::landing(places, anchor);
    lemma_lift_keeps(s, places);
    let (low, high) = (rest.take(at), rest.skip(at));
    vstd::seq_lib::lemma_multiset_commutative(low + taken, high);
    vstd::seq_lib::lemma_multiset_commutative(low, taken);
    vstd::seq_lib::lemma_multiset_commutative(low, high);
    assert(low + high =~= rest);
    assert(blocks::block_moved(s, places, anchor).to_multiset() =~= s.to_multiset());
    broadcast use vstd::seq_lib::group_to_multiset_ensures;

    assert(blocks::block_moved(s, places, anchor).len() == blocks::block_moved(
        s,
        places,
        anchor,
    ).to_multiset().len());
}

proof fn lemma_lift_keeps<T>(s: Seq<T>, places: Seq<int>)
    requires
        blocks::can_lift(s, places),
    ensures
        blocks::lifted(s, places).0.to_multiset().add(blocks::lifted(s, places).1.to_multiset())
            == s.to_multiset(),
        blocks::lifted(s, places).0.len() + places.len() == s.len(),
        blocks::lifted(s, places).1.len() == places.len(),
    decreases places.len(),
{
    broadcast use vstd::seq_lib::group_to_multiset_ensures;

    if places.len() == 0 {
        assert(blocks::lifted(s, places).0.to_multiset().add(
            blocks::lifted(s, places).1.to_multiset(),
        ) =~= s.to_multiset());
    } else {
        let top = places.last();
        let less = s.remove(top);
        lemma_lift_keeps(less, places.drop_last());
        let x = s[top];
        vstd::seq_lib::to_multiset_remove(s, top);
        vstd::seq_lib::to_multiset_contains(s, x);
        assert(s.contains(x));
        assert(s.to_multiset() =~= less.to_multiset().insert(x));
        let below = blocks::lifted(less, places.drop_last());
        vstd::seq_lib::to_multiset_build(below.1, x);
        assert(blocks::lifted(s, places).1 == below.1.push(x));
        assert(blocks::lifted(s, places).0.to_multiset().add(
            blocks::lifted(s, places).1.to_multiset(),
        ) =~= s.to_multiset());
    }
}

proof fn lemma_picks(cs: Seq<ChannelInfo>, names: Seq<Name>)
    requires
        names.no_duplicates(),
    ensures
        grouping::picks(cs, names).no_duplicates(),
        forall|p: int| #[trigger]
            grouping::picks(cs, names).contains(p) <==> exists|n: int|
                0 <= n < names.len() && nesting::channel_at(cs, #[trigger] names[n]) == Some(p),
    decreases names.len(),
{
    let all = grouping::picks(cs, names);
    let f = |name: Name| nesting::channel_at(cs, name);
    if names.len() > 0 {
        let low = names.drop_last();
        let part = grouping::picks(cs, low);
        let last = names.last();
        assert(low.no_duplicates()) by {
            assert forall|i: int, j: int|
                0 <= i < low.len() && 0 <= j < low.len() && i != j implies low[i] != low[j] by {
                assert(names[i] != names[j]);
            }
        }
        lemma_picks(cs, low);
        match nesting::channel_at(cs, last) {
            Some(q) => {
                assert(all =~= part.push(q));
                assert(!part.contains(q)) by {
                    if part.contains(q) {
                        let n = choose|n: int|
                            0 <= n < low.len() && nesting::channel_at(cs, #[trigger] low[n])
                                == Some(q);
                        nesting::lemma_channel_at(cs, low[n]);
                        nesting::lemma_channel_at(cs, last);
                        assert(names[n] == names[names.len() - 1]);
                    }
                }
                assert forall|p: int| #[trigger] all.contains(p) <==> exists|n: int|
                    0 <= n < names.len() && nesting::channel_at(cs, #[trigger] names[n])
                        == Some(p) by {
                    if all.contains(p) {
                        if part.contains(p) {
                            let n = choose|n: int|
                                0 <= n < low.len() && nesting::channel_at(cs, #[trigger] low[n])
                                    == Some(p);
                            assert(names[n] == low[n]);
                        } else {
                            assert(names[names.len() - 1] == last);
                        }
                    }
                    if exists|n: int|
                        0 <= n < names.len() && nesting::channel_at(cs, #[trigger] names[n])
                            == Some(p) {
                        let n = choose|n: int|
                            0 <= n < names.len() && nesting::channel_at(cs, #[trigger] names[n])
                                == Some(p);
                        if n < low.len() {
                            assert(low[n] == names[n]);
                            assert(part.contains(p));
                            let k = choose|k: int| 0 <= k < part.len() && part[k] == p;
                            assert(all[k] == p);
                        } else {
                            assert(all[all.len() - 1] == p);
                        }
                    }
                }
            },
            None => {
                assert(all =~= part);
                assert forall|p: int| #[trigger] all.contains(p) <==> exists|n: int|
                    0 <= n < names.len() && nesting::channel_at(cs, #[trigger] names[n])
                        == Some(p) by {
                    if part.contains(p) {
                        let n = choose|n: int|
                            0 <= n < low.len() && nesting::channel_at(cs, #[trigger] low[n])
                                == Some(p);
                        assert(names[n] == low[n]);
                    }
                    if exists|n: int|
                        0 <= n < names.len() && nesting::channel_at(cs, #[trigger] names[n])
                            == Some(p) {
                        let n = choose|n: int|
                            0 <= n < names.len() && nesting::channel_at(cs, #[trigger] names[n])
                                == Some(p);
                        assert(low[n] == names[n]);
                    }
                }
            },
        }
    }
}

/// Layers that are named once each can always be gathered: their places rise strictly,
/// and the block fits where the topmost of them was.
pub proof fn law_distinct_layers_gather<E, M>(channels: Seq<Channel<E, M>>, names: Seq<Name>)
    requires
        channels.len() <= u64::MAX,
        names.no_duplicates(),
        grouping::picks(grouping::infos(channels), names).len() > 0,
    ensures
        ({
            let places = grouping::sorted(grouping::picks(grouping::infos(channels), names));
            &&& blocks::rising(places, channels.len())
            &&& grouping::can_gather(channels, places, places.last())
        }),
{
    let cs = grouping::infos(channels);
    let places = grouping::sorted(grouping::picks(cs, names));
    lemma_distinct_places(cs, names);
    blocks::law_lift_rising(channels, places);
    lemma_landing(cs.len(), places);
}

/// A block of layers moves as one: it comes out next to each other and in its own order,
/// and every other layer keeps its order too.
pub proof fn law_block_moves_as_one<T>(s: Seq<T>, places: Seq<int>, anchor: int)
    requires
        places.len() > 0,
        blocks::rising(places, s.len()),
        0 <= anchor < s.len(),
        anchor == places.last() || !places.contains(anchor),
    ensures
        grouping::can_gather(s, places, anchor),
        forall|t: int|
            0 <= t < places.len() ==> blocks::block_moved(s, places, anchor)[blocks::landing(
                places,
                anchor,
            ) + t] == s[#[trigger] places[t]],
        forall|i: int|
            0 <= i < s.len() && !places.contains(i) ==> blocks::block_moved(s, places, anchor)[(
            if blocks::settled(places, i) < blocks::landing(places, anchor) {
                blocks::settled(places, i)
            } else {
                blocks::settled(places, i) + places.len()
            })] == #[trigger] s[i],
{
    blocks::law_lift_rising(s, places);
    if anchor == places.last() {
        lemma_landing(s.len(), places);
    } else {
        assert(0 <= blocks::settled(places, anchor) < s.len() - places.len());
    }
    let (rest, taken) = blocks::lifted(s, places);
    assert forall|i: int| 0 <= i < s.len() && !places.contains(i) implies blocks::block_moved(
        s,
        places,
        anchor,
    )[(if blocks::settled(places, i) < blocks::landing(places, anchor) {
        blocks::settled(places, i)
    } else {
        blocks::settled(places, i) + places.len()
    })] == #[trigger] s[i] by {
        assert(rest[blocks::settled(places, i)] == s[i]);
    }
}

proof fn lemma_distinct_places(cs: Seq<ChannelInfo>, names: Seq<Name>)
    requires
        cs.len() <= u64::MAX,
        names.no_duplicates(),
        grouping::picks(cs, names).len() > 0,
    ensures
        ({
            let places = grouping::sorted(grouping::picks(cs, names));
            &&& blocks::rising(places, cs.len())
            &&& forall|p: int| #[trigger]
                places.contains(p) <==> grouping::picks(cs, names).contains(p)
        }),
{
    let picked = grouping::picks(cs, names);
    let keys = grouping::place_keys(picked);
    let places = grouping::sorted(picked);
    let by_key = order::stable_order(keys);
    lemma_picks(cs, names);
    order::law_stable_order(keys);
    assert forall|i: int| 0 <= i < picked.len() implies 0 <= #[trigger] picked[i] < cs.len() by {
        assert(picked.contains(picked[i]));
        let n = choose|n: int|
            0 <= n < names.len() && nesting::channel_at(cs, #[trigger] names[n]) == Some(picked[i]);
        nesting::lemma_channel_at(cs, names[n]);
    }
    assert forall|i: int| 0 <= i < places.len() implies 0 <= #[trigger] places[i] < cs.len() by {
        let q = by_key[i];
        assert(0 <= picked[q] < cs.len());
    }
    assert forall|i: int, j: int| 0 <= i < j < places.len() implies places[i] < places[j] by {
        let a = by_key[i];
        let b = by_key[j];
        assert(by_key.no_duplicates());
        assert(a != b);
        assert(keys[a] == picked[a] as u64 && keys[b] == picked[b] as u64);
        assert(picked[a] != picked[b]);
    }
    assert forall|p: int| #[trigger] places.contains(p) <==> picked.contains(p) by {
        if places.contains(p) {
            let i = choose|i: int| 0 <= i < places.len() && places[i] == p;
            assert(picked[by_key[i]] == p);
        }
        if picked.contains(p) {
            let q = choose|q: int| 0 <= q < picked.len() && picked[q] == p;
            assert(by_key.contains(q));
            let i = choose|i: int| 0 <= i < by_key.len() && by_key[i] == q;
            assert(places[i] == p);
        }
    }
}

/// A block put down where its topmost item was fits there.
proof fn lemma_landing(len: nat, places: Seq<int>)
    requires
        places.len() > 0,
        blocks::rising(places, len),
    ensures
        blocks::landing(places, places.last()) == places.last() - (places.len() - 1),
        0 <= blocks::landing(places, places.last()) <= len - places.len(),
{
    let low = places.drop_last();
    let top = places.last();
    assert forall|i: int| 0 <= i < low.len() implies #[trigger] low[i] < top by {
        assert(places[i] < places[places.len() - 1]);
    }
    blocks::lemma_all_below(low, top, top);
    lemma_rising_floor(places, places.len() - 1, len);
}

proof fn lemma_rising_floor(places: Seq<int>, i: int, len: nat)
    requires
        blocks::rising(places, len),
        0 <= i < places.len(),
    ensures
        places[i] >= i,
    decreases i,
{
    if i > 0 {
        lemma_rising_floor(places, i - 1, len);
    }
}

/// The places `from`, `from + 1` and so on, `n` of them.
pub open spec fn run(from: int, n: nat) -> Seq<int> {
    Seq::new(n, |i: int| from + i)
}

/// Whether every channel has a name of its own.
pub open spec fn distinct<E, M>(channels: Seq<Channel<E, M>>) -> bool {
    forall|i: int, j: int|
        0 <= i < j < channels.len() ==> channels[i].uuid@ != channels[j].uuid@
}

/// Grouping gathers: layers that were apart end up next to each other, with no other
/// layer among them, and all of them are members.
pub proof fn law_grouping_gathers<E, M>(
    before: Seq<Channel<E, M>>,
    after: Seq<Channel<E, M>>,
    names: Seq<Name>,
    group: Name,
)
    requires
        before.len() <= u64::MAX,
        distinct(before),
        names.no_duplicates(),
        forall|i: int|
            0 <= i < before.len() ==> types::name_of((#[trigger] before[i]).group) != Some(group),
        ({
            let places = grouping::sorted(grouping::picks(grouping::infos(before), names));
            let gathered = blocks::block_moved(before, places, places.last());
            &&& places.len() > 0
            &&& grouping::regrouped(
                gathered,
                after,
                |j: int| grouping::is_pick(grouping::infos(gathered), names, j),
                Some(group),
            )
        }),
    ensures
        ({
            let places = grouping::sorted(grouping::picks(grouping::infos(before), names));
            nesting::members(grouping::infos(after), group) == run(
                blocks::landing(places, places.last()),
                places.len(),
            )
        }),
{
    let cs = grouping::infos(before);
    let places = grouping::sorted(grouping::picks(cs, names));
    let gathered = blocks::block_moved(before, places, places.last());
    let at = blocks::landing(places, places.last());
    let k = places.len();
    lemma_distinct_places(cs, names);
    lemma_landing(cs.len(), places);
    blocks::law_lift_rising(before, places);
    let (rest, taken) = blocks::lifted(before, places);
    assert forall|j: int| 0 <= j < gathered.len() implies #[trigger] grouping::is_pick(
        grouping::infos(gathered),
        names,
        j,
    ) == (at <= j < at + k) by {
        lemma_who_is_picked(before, names, j);
    }
    assert forall|j: int| 0 <= j < after.len() implies ((#[trigger] grouping::infos(after)[j]).group
        == Some(group)) == (at <= j < at + k) by {
        assert(after[j] == after[j]);
        if !grouping::is_pick(grouping::infos(gathered), names, j) {
            assert(gathered[j] == if j < at {
                rest[j]
            } else {
                rest[j - k]
            });
            lemma_rest_is_old(before, places, if j < at {
                j
            } else {
                j - k
            });
        }
    }
    lemma_run(grouping::infos(after), group, at, k, after.len());
}

/// Grouping layers that lie next to each other and are in no group, and then dissolving the
/// group, restores the stack and the list of groups. Only the generation moved on.
pub proof fn law_ungrouping_undoes_grouping<E, M>(
    before: Mixer<E, M>,
    grouped: Mixer<E, M>,
    after: Mixer<E, M>,
    names: Seq<Name>,
    uuid: Name,
    name: Name,
    mix: M,
)
    requires
        names.no_duplicates(),
        ({
            let places = grouping::sorted(grouping::picks(before.channel_infos(), names));
            &&& places.len() >= 2
            &&& places == run(places[0], places.len())
            &&& forall|t: int|
                0 <= t < places.len() ==> before.channels@[#[trigger] places[t]].group is None
        }),
        forall|i: int|
            0 <= i < before.channels@.len() ==> types::name_of(
                (#[trigger] before.channels@[i]).group,
            ) != Some(uuid),
        forall|i: int|
            0 <= i < before.groups@.len() ==> (#[trigger] before.groups@[i]).uuid@ != uuid,
        grouping::is_grouped(before, grouped, names, uuid, name, mix),
        grouping::is_ungrouped(grouped, after, uuid),
    ensures
        after.channels@ == before.channels@,
        after.groups@ == before.groups@,
        after == (Mixer {
            channels: after.channels,
            groups: after.groups,
            generation: after.generation,
            ..before
        }),
        after.generation != grouped.generation,
{
    let cs = before.channel_infos();
    let stack = before.channels@;
    let places = grouping::sorted(grouping::picks(cs, names));
    let from = places[0];
    let k = places.len();
    let gathered = blocks::block_moved(stack, places, places.last());
    assert(before.channels.len() == stack.len());
    lemma_distinct_places(cs, names);
    lemma_picks(cs, names);
    lemma_landing(cs.len(), places);
    assert(places.last() == from + k - 1);
    assert(places[k - 1] < cs.len());
    lemma_lift_run(stack, from, k);
    assert(gathered =~= stack);
    assert(grouping::infos(gathered) =~= cs);
    assert forall|j: int| 0 <= j < stack.len() implies after.channels@[j] == stack[j] by {
        assert(grouped.channels@[j] == grouped.channels@[j]);
        if grouping::is_pick(cs, names, j) {
            let n = choose|n: int|
                0 <= n < names.len() && nesting::channel_at(cs, #[trigger] names[n]) == Some(j);
            assert(grouping::picks(cs, names).contains(j));
            assert(places.contains(j));
            let t = choose|t: int| 0 <= t < places.len() && places[t] == j;
            assert(stack[places[t]].group is None);
        }
    }
    assert(after.channels@ =~= stack);
    let keep = grouping::other_than::<E, M>(uuid);
    let all = grouped.groups@;
    order::lemma_filter_all(before.groups@, keep);
    assert(all.filter(keep) == before.groups@) by {
        reveal(Seq::filter);
        assert(!keep(all.last()));
        assert(all.drop_last().filter(keep) == before.groups@);
    }
}

/// Lifting a run of neighbours leaves what lies below and above them.
proof fn lemma_lift_run<T>(s: Seq<T>, from: int, n: nat)
    requires
        0 <= from,
        from + n <= s.len(),
    ensures
        blocks::lifted(s, run(from, n)).0 == s.take(from) + s.skip(from + n),
        blocks::lifted(s, run(from, n)).1 == s.subrange(from, from + n),
    decreases n,
{
    let places = run(from, n);
    if n == 0 {
        assert(s.take(from) + s.skip(from + n) =~= s);
        assert(s.subrange(from, from + n) =~= Seq::<T>::empty());
    } else {
        let top = from + n - 1;
        let less = s.remove(top);
        assert(places.drop_last() =~= run(from, (n - 1) as nat));
        assert(places.last() == top);
        lemma_lift_run(less, from, (n - 1) as nat);
        assert(less.take(from) + less.skip(top) =~= s.take(from) + s.skip(from + n));
        assert(less.subrange(from, top).push(s[top]) =~= s.subrange(from, from + n));
    }
}

/// What is left after a lift was there before.
proof fn lemma_rest_is_old<T>(s: Seq<T>, places: Seq<int>, r: int)
    requires
        blocks::can_lift(s, places),
        0 <= r < blocks::lifted(s, places).0.len(),
    ensures
        s.contains(blocks::lifted(s, places).0[r]),
    decreases places.len(),
{
    if places.len() > 0 {
        let less = s.remove(places.last());
        lemma_rest_is_old(less, places.drop_last(), r);
        let x = blocks::lifted(s, places).0[r];
        let i = choose|i: int| 0 <= i < less.len() && less[i] == x;
        if i < places.last() {
            assert(s[i] == x);
        } else {
            assert(s[i + 1] == x);
        }
    }
}

proof fn lemma_who_is_picked<E, M>(before: Seq<Channel<E, M>>, names: Seq<Name>, j: int)
    requires
        before.len() <= u64::MAX,
        distinct(before),
        names.no_duplicates(),
        grouping::picks(grouping::infos(before), names).len() > 0,
        0 <= j < before.len(),
    ensures
        ({
            let places = grouping::sorted(grouping::picks(grouping::infos(before), names));
            let gathered = blocks::block_moved(before, places, places.last());
            let at = blocks::landing(places, places.last());
            grouping::is_pick(grouping::infos(gathered), names, j) == (at <= j < at + places.len())
        }),
{
    let cs = grouping::infos(before);
    let picked = grouping::picks(cs, names);
    let places = grouping::sorted(picked);
    let gathered = blocks::block_moved(before, places, places.last());
    let gs = grouping::infos(gathered);
    let at = blocks::landing(places, places.last());
    let k = places.len();
    lemma_distinct_places(cs, names);
    lemma_picks(cs, names);
    lemma_landing(cs.len(), places);
    blocks::law_lift_rising(before, places);
    law_block_keeps_layers(before, places, places.last());
    lemma_distinct_after(before, places, places.last());
    if at <= j < at + k {
        let p = places[j - at];
        assert(gathered[j] == before[p]);
        assert(places.contains(p));
        let n = choose|n: int|
            0 <= n < names.len() && nesting::channel_at(cs, #[trigger] names[n]) == Some(p);
        nesting::lemma_channel_at(cs, names[n]);
        nesting::lemma_channel_at(gs, names[n]);
        assert(gs[j].uuid == names[n]);
        assert(nesting::channel_at(gs, names[n]) == Some(j));
    }
    if grouping::is_pick(gs, names, j) && !(at <= j < at + k) {
        let n = choose|n: int|
            0 <= n < names.len() && nesting::channel_at(gs, #[trigger] names[n]) == Some(j);
        nesting::lemma_channel_at(gs, names[n]);
        assert(gathered[j].uuid@ == names[n]);
        let r = if j < at {
            j
        } else {
            j - k
        };
        assert(gathered[j] == blocks::lifted(before, places).0[r]);
        lemma_rest_is_old(before, places, r);
        let q = choose|q: int| 0 <= q < before.len() && before[q] == gathered[j];
        nesting::lemma_channel_at(cs, names[n]);
        assert(cs[q].uuid == names[n]);
        let first = nesting::channel_at(cs, names[n])->0;
        assert(cs[first].uuid == names[n]);
        assert(first == q) by {
            if first < q {
                assert(before[first].uuid@ != before[q].uuid@);
            } else if q < first {
                assert(before[q].uuid@ != before[first].uuid@);
            }
        }
        assert(picked.contains(q));
        assert(places.contains(q));
        let t = choose|t: int| 0 <= t < places.len() && places[t] == q;
        assert(gathered[at + t] == before[q]);
        assert(gathered[at + t].uuid@ == gathered[j].uuid@);
        if at + t < j {
            assert(gathered[at + t].uuid@ != gathered[j].uuid@);
        } else {
            assert(gathered[j].uuid@ != gathered[at + t].uuid@);
        }
    }
}

/// Moving a block leaves every channel with a name of its own.
proof fn lemma_distinct_after<E, M>(before: Seq<Channel<E, M>>, places: Seq<int>, anchor: int)
    requires
        distinct(before),
        grouping::can_gather(before, places, anchor),
    ensures
        distinct(blocks::block_moved(before, places, anchor)),
{
    broadcast use vstd::seq_lib::group_to_multiset_ensures;

    let after = blocks::block_moved(before, places, anchor);
    law_block_keeps_layers(before, places, anchor);
    assert(before.no_duplicates()) by {
        assert forall|i: int, j: int|
            0 <= i < before.len() && 0 <= j < before.len() && i != j implies before[i]
            != before[j] by {
            if i < j {
                assert(before[i].uuid@ != before[j].uuid@);
            } else {
                assert(before[j].uuid@ != before[i].uuid@);
            }
        }
    }
    before.lemma_multiset_has_no_duplicates();
    after.lemma_multiset_has_no_duplicates_conv();
    assert forall|i: int, j: int| 0 <= i < j < after.len() implies after[i].uuid@
        != after[j].uuid@ by {
        assert(after.contains(after[i]) && after.contains(after[j]));
        vstd::seq_lib::to_multiset_contains(after, after[i]);
        vstd::seq_lib::to_multiset_contains(after, after[j]);
        vstd::seq_lib::to_multiset_contains(before, after[i]);
        vstd::seq_lib::to_multiset_contains(before, after[j]);
        assert(before.contains(after[i]) && before.contains(after[j]));
        let a = choose|a: int| 0 <= a < before.len() && before[a] == after[i];
        let b = choose|b: int| 0 <= b < before.len() && before[b] == after[j];
        assert(after[i] != after[j]);
        if a < b {
            assert(before[a].uuid@ != before[b].uuid@);
        } else {
            assert(before[b].uuid@ != before[a].uuid@);
        }
    }
}

proof fn lemma_run(cs: Seq<ChannelInfo>, group: Name, at: int, k: nat, n: nat)
    requires
        n <= cs.len(),
        0 <= at,
        at + k <= cs.len(),
        forall|j: int| 0 <= j < cs.len() ==> ((#[trigger] cs[j]).group == Some(group)) == (at <= j
            < at + k),
    ensures
        n <= at ==> nesting::members_below(cs, group, n) == run(at, 0),
        at <= n <= at + k ==> nesting::members_below(cs, group, n) == run(at, (n - at) as nat),
        at + k <= n ==> nesting::members_below(cs, group, n) == run(at, k),
    decreases n,
{
    if n > 0 {
        let m = (n - 1) as nat;
        lemma_run(cs, group, at, k, m);
        assert((cs[m as int].group == Some(group)) == (at <= m < at + k));
        if at <= m < at + k {
            assert(run(at, (m - at) as nat).push(m as int) =~= run(at, (n - at) as nat));
        }
    } else {
        assert(nesting::members_below(cs, group, 0) =~= run(at, 0));
    }
}

proof fn lemma_below_steps(places: Seq<int>, len: nat, j: int)
    requires
        blocks::rising(places, len),
    ensures
        blocks::below(places, j + 1) == blocks::below(places, j) + (if places.contains(j) {
            1nat
        } else {
            0
        }),
    decreases places.len(),
{
    if places.len() > 0 {
        let rest = places.drop_last();
        assert(blocks::rising(rest, len)) by {
            assert forall|i: int, k: int| 0 <= i < k < rest.len() implies rest[i] < rest[k] by {
                assert(places[i] < places[k]);
            }
            assert forall|i: int| 0 <= i < rest.len() implies 0 <= #[trigger] rest[i] < len by {
                assert(places[i] == rest[i]);
            }
        }
        lemma_below_steps(rest, len, j);
        if places.last() == j {
            assert(places[places.len() - 1] == j);
            if rest.contains(j) {
                let t = choose|t: int| 0 <= t < rest.len() && rest[t] == j;
                assert(places[t] < places[places.len() - 1]);
            }
        } else if places.contains(j) {
            let t = choose|t: int| 0 <= t < places.len() && places[t] == j;
            assert(rest[t] == j);
        } else if rest.contains(j) {
            let t = choose|t: int| 0 <= t < rest.len() && rest[t] == j;
            assert(places[t] == j);
        }
    }
}

proof fn lemma_settled_rises(places: Seq<int>, len: nat, i: int, j: int)
    requires
        blocks::rising(places, len),
        i < j,
    ensures
        blocks::settled(places, i) <= blocks::settled(places, j),
        !places.contains(i) ==> blocks::settled(places, i) < blocks::settled(places, j),
    decreases j - i,
{
    lemma_below_steps(places, len, j - 1);
    if i < j - 1 {
        lemma_settled_rises(places, len, i, j - 1);
    }
}

/// Gathering picked layers at an anchor puts them side by side, in their order: above
/// every other layer that was below the anchor and below every other that was not. The
/// others keep their order. The map says where each layer goes.
pub proof fn law_block_lands_at_the_anchor<T>(
    s: Seq<T>,
    places: Seq<int>,
    anchor: int,
) -> (to: spec_fn(int) -> int)
    requires
        places.len() > 0,
        blocks::rising(places, s.len()),
        0 <= anchor < s.len(),
        anchor == places.last() || !places.contains(anchor),
    ensures
        blocks::block_moved(s, places, anchor).len() == s.len(),
        forall|i: int|
            0 <= i < s.len() ==> 0 <= to(i) < s.len() && blocks::block_moved(s, places, anchor)[to(
                i,
            )] == #[trigger] s[i],
        to(places[0]) == blocks::landing(places, anchor),
        forall|t: int|
            0 <= t < places.len() ==> to(#[trigger] places[t]) == to(places[0]) + t,
        forall|i: int, j: int|
            0 <= i < j < s.len() && !places.contains(i) && !places.contains(j) ==> #[trigger] to(i)
                < #[trigger] to(j),
        forall|i: int|
            0 <= i < s.len() && !places.contains(i) ==> (if i < anchor {
                #[trigger] to(i) < to(places[0])
            } else {
                to(i) > to(places.last())
            }),
{
    let at = blocks::landing(places, anchor);
    let k = places.len() as int;
    let to = |i: int|
        if places.contains(i) {
            at + places.index_of(i)
        } else if blocks::settled(places, i) < at {
            blocks::settled(places, i)
        } else {
            blocks::settled(places, i) + k
        };
    lemma_block_keeps_size(s, places, anchor);
    law_block_moves_as_one(s, places, anchor);
    blocks::law_lift_rising(s, places);
    assert forall|t: int| 0 <= t < places.len() implies to(#[trigger] places[t]) == at + t by {
        let p = places[t];
        assert(places.contains(p));
        let u = places.index_of(p);
        if u < t {
            assert(places[u] < places[t]);
        } else if t < u {
            assert(places[t] < places[u]);
        }
    }
    assert forall|i: int| 0 <= i < s.len() implies 0 <= to(i) < s.len() && blocks::block_moved(
        s,
        places,
        anchor,
    )[to(i)] == #[trigger] s[i] by {
        if places.contains(i) {
            let t = places.index_of(i);
            assert(places[t] == i);
            assert(to(places[t]) == at + t);
        } else {
            assert(0 <= blocks::settled(places, i) < s.len() - places.len());
        }
    }
    assert forall|i: int, j: int|
        0 <= i < j < s.len() && !places.contains(i) && !places.contains(j) implies #[trigger] to(i)
        < #[trigger] to(j) by {
        lemma_settled_rises(places, s.len(), i, j);
    }
    assert forall|i: int| 0 <= i < s.len() && !places.contains(i) implies (if i < anchor {
        #[trigger] to(i) < to(places[0])
    } else {
        to(i) > to(places.last())
    }) by {
        assert(to(places[0]) == at + 0);
        assert(to(places[places.len() - 1]) == at + places.len() - 1);
        if i < anchor {
            lemma_settled_rises(places, s.len(), i, anchor);
        } else if i > anchor {
            lemma_settled_rises(places, s.len(), anchor, i);
        }
    }
    assert(to(places[0]) == at + 0);
    to
}

proof fn lemma_block_keeps_size<T>(s: Seq<T>, places: Seq<int>, anchor: int)
    requires
        places.len() > 0,
        blocks::rising(places, s.len()),
        0 <= anchor < s.len(),
        anchor == places.last() || !places.contains(anchor),
    ensures
        blocks::block_moved(s, places, anchor).len() == s.len(),
{
    law_block_moves_as_one(s, places, anchor);
    law_block_keeps_layers(s, places, anchor);
}

/// A layer that joins a group with members lands directly above the topmost of them, and
/// stays where it is if it is that one. The others keep their order; a group without
/// members, or none, moves nothing.
pub proof fn law_joining_lands_on_top<E, M>(
    channels: Seq<Channel<E, M>>,
    i: int,
    group: Option<Name>,
    top: int,
)
    requires
        0 <= i < channels.len(),
    ensures
        (group is None || forall|j: int|
            0 <= j < channels.len() ==> types::name_of((#[trigger] channels[j]).group) != group)
            ==> grouping::joined_stack(channels, i, group) == channels,
        group is Some && 0 <= top < channels.len() && types::name_of(channels[top].group) == group
            && (forall|j: int|
            top < j < channels.len() ==> types::name_of((#[trigger] channels[j]).group) != group)
            ==> {
            let after = grouping::joined_stack(channels, i, group);
            &&& after.len() == channels.len()
            &&& top == i ==> after == channels
            &&& i < top ==> after[top] == channels[i] && after[top - 1] == channels[top]
            &&& top < i ==> after[top + 1] == channels[i] && after[top] == channels[top]
            &&& forall|j: int|
                0 <= j < channels.len() && j != i ==> after[(if i < j <= top {
                    j - 1
                } else if top < j < i {
                    j + 1
                } else {
                    j
                })] == #[trigger] channels[j]
        },
{
    if let Some(g) = group {
        let cs = grouping::infos(channels);
        lemma_last_member(cs, g, cs.len());
        assert forall|j: int| 0 <= j < cs.len() implies (#[trigger] cs[j]).group == types::name_of(
            channels[j].group,
        ) by {}
        let members = nesting::members(cs, g);
        if members.len() > 0 {
            let last = members.last();
            assert(cs[last].group == group);
            assert(types::name_of(channels[last].group) == group);
        }
        if 0 <= top < channels.len() && types::name_of(channels[top].group) == group && (forall|
            j: int,
        |
            top < j < channels.len() ==> types::name_of((#[trigger] channels[j]).group) != group) {
            assert(cs[top].group == group);
            assert(members.len() > 0);
            assert(members.last() == top);
            if top == i {
                assert(grouping::joined_stack(channels, i, group) =~= channels);
            }
        }
    }
}

proof fn lemma_last_member(cs: Seq<ChannelInfo>, name: Name, n: nat)
    requires
        n <= cs.len(),
    ensures
        nesting::members_below(cs, name, n).len() == 0 ==> forall|j: int|
            0 <= j < n ==> (#[trigger] cs[j]).group != Some(name),
        nesting::members_below(cs, name, n).len() > 0 ==> {
            let last = nesting::members_below(cs, name, n).last();
            &&& 0 <= last < n
            &&& cs[last].group == Some(name)
            &&& forall|j: int| last < j < n ==> (#[trigger] cs[j]).group != Some(name)
        },
    decreases n,
{
    if n > 0 {
        lemma_last_member(cs, name, (n - 1) as nat);
    }
}

/// The layers that are picked are those that go by one of the names, the first one of each
/// name, in stack order.
pub proof fn law_picked_layers<E, M>(channels: Seq<Channel<E, M>>, names: Seq<Name>, p: int)
    requires
        channels.len() <= u64::MAX,
    ensures
        ({
            let places = grouping::sorted(grouping::picks(grouping::infos(channels), names));
            &&& places.contains(p) <==> 0 <= p < channels.len() && names.contains(
                channels[p].uuid@,
            ) && forall|j: int| 0 <= j < p ==> (#[trigger] channels[j]).uuid@ != channels[p].uuid@
            &&& forall|j: int, k: int| 0 <= j < k < places.len() ==> places[j] <= places[k]
        }),
{
    let cs = grouping::infos(channels);
    let picked = grouping::picks(cs, names);
    let places = grouping::sorted(picked);
    let keys = grouping::place_keys(picked);
    let ord = order::stable_order(keys);
    order::law_stable_order(keys);
    lemma_picked(cs, names);
    assert forall|t: int| 0 <= t < picked.len() implies 0 <= #[trigger] picked[t] < cs.len() by {
        assert(picked.contains(picked[t]));
        let n = choose|n: int|
            0 <= n < names.len() && nesting::channel_at(cs, #[trigger] names[n]) == Some(picked[t]);
        nesting::lemma_channel_at(cs, names[n]);
    }
    assert forall|j: int, k: int| 0 <= j < k < places.len() implies places[j] <= places[k] by {
        assert(keys[ord[j]] <= keys[ord[k]]);
        assert(keys[ord[j]] == picked[ord[j]] as u64 && keys[ord[k]] == picked[ord[k]] as u64);
    }
    assert(places.contains(p) <==> picked.contains(p)) by {
        if places.contains(p) {
            let t = choose|t: int| 0 <= t < places.len() && places[t] == p;
            assert(picked[ord[t]] == p);
        }
        if picked.contains(p) {
            let t = choose|t: int| 0 <= t < picked.len() && picked[t] == p;
            assert(ord.contains(t));
            let u = choose|u: int| 0 <= u < ord.len() && ord[u] == t;
            assert(places[u] == p);
        }
    }
    assert forall|j: int| 0 <= j < cs.len() implies (#[trigger] cs[j]).uuid == channels[j].uuid@ by {}
    if picked.contains(p) {
        let n = choose|n: int|
            0 <= n < names.len() && nesting::channel_at(cs, #[trigger] names[n]) == Some(p);
        nesting::lemma_channel_at(cs, names[n]);
        assert(cs[p].uuid == names[n]);
        assert forall|j: int| 0 <= j < p implies (#[trigger] channels[j]).uuid@
            != channels[p].uuid@ by {
            assert(cs[j].uuid != names[n]);
        }
    }
    if 0 <= p < channels.len() && names.contains(channels[p].uuid@) && (forall|j: int|
        0 <= j < p ==> (#[trigger] channels[j]).uuid@ != channels[p].uuid@) {
        let n = choose|n: int| 0 <= n < names.len() && names[n] == channels[p].uuid@;
        nesting::lemma_channel_at(cs, names[n]);
        let q = nesting::channel_at(cs, names[n])->0;
        assert(cs[p].uuid == names[n]);
        assert(cs[q].uuid == channels[q].uuid@);
        assert(q == p);
    }
}

proof fn lemma_picked(cs: Seq<ChannelInfo>, names: Seq<Name>)
    ensures
        forall|p: int| #[trigger] grouping::picks(cs, names).contains(p) <==> exists|n: int|
            0 <= n < names.len() && nesting::channel_at(cs, #[trigger] names[n]) == Some(p),
    decreases names.len(),
{
    reveal(Seq::filter_map);
    if names.len() > 0 {
        let rest = names.drop_last();
        lemma_picked(cs, rest);
        let before = grouping::picks(cs, rest);
        let all = grouping::picks(cs, names);
        assert forall|p: int| #[trigger] all.contains(p) <==> exists|n: int|
            0 <= n < names.len() && nesting::channel_at(cs, #[trigger] names[n]) == Some(p) by {
            if all.contains(p) {
                let t = choose|t: int| 0 <= t < all.len() && all[t] == p;
                if t < before.len() {
                    assert(before[t] == p);
                    assert(before.contains(p));
                    let n = choose|n: int|
                        0 <= n < rest.len() && nesting::channel_at(cs, #[trigger] rest[n]) == Some(
                            p,
                        );
                    assert(names[n] == rest[n]);
                } else {
                    assert(nesting::channel_at(cs, names[names.len() - 1]) == Some(p));
                }
            }
            if exists|n: int|
                0 <= n < names.len() && nesting::channel_at(cs, #[trigger] names[n]) == Some(p) {
                let n = choose|n: int|
                    0 <= n < names.len() && nesting::channel_at(cs, #[trigger] names[n]) == Some(p);
                if n < rest.len() {
                    assert(rest[n] == names[n]);
                    assert(before.contains(p));
                    let t = choose|t: int| 0 <= t < before.len() && before[t] == p;
                    assert(all[t] == p);
                } else {
                    assert(all[all.len() - 1] == p);
                }
            }
        }
    }
}

/// Grouping layers makes exactly those that were named members of the new group, wherever
/// they went, and changes nothing else of any layer. The map says where each one went.
pub proof fn law_named_layers_are_grouped<E, M>(
    before: Mixer<E, M>,
    after: Mixer<E, M>,
    names: Seq<Name>,
    uuid: Name,
    name: Name,
    mix: M,
) -> (to: spec_fn(int) -> int)
    requires
        distinct(before.channels@),
        names.no_duplicates(),
        grouping::picks(before.channel_infos(), names).len() > 0,
        grouping::is_grouped(before, after, names, uuid, name, mix),
    ensures
        after.channels@.len() == before.channels@.len(),
        forall|i: int|
            0 <= i < before.channels@.len() ==> {
                let c = #[trigger] before.channels@[i];
                let now = after.channels@[to(i)];
                &&& 0 <= to(i) < after.channels@.len()
                &&& now == (Channel { group: now.group, ..c })
                &&& names.contains(c.uuid@) ==> (now.group matches Some(g) && g@ == uuid)
                &&& !names.contains(c.uuid@) ==> now.group == c.group
            },
        forall|i: int, j: int|
            0 <= i < j < before.channels@.len() && names.contains(before.channels@[i].uuid@)
                && names.contains(before.channels@[j].uuid@) ==> #[trigger] to(i) < #[trigger] to(
                j,
            ) <= to(i) + (j - i),
{
    let stack = before.channels@;
    let cs = grouping::infos(stack);
    assert(before.channels.len() == stack.len());
    assert(before.channel_infos() =~= cs);
    let places = grouping::sorted(grouping::picks(cs, names));
    let gathered = blocks::block_moved(stack, places, places.last());
    lemma_distinct_places(cs, names);
    assert(places.contains(places[places.len() - 1]));
    let to = law_block_lands_at_the_anchor(stack, places, places.last());
    assert forall|i: int| 0 <= i < stack.len() implies (#[trigger] places.contains(i))
        == names.contains(stack[i].uuid@) by {
        law_picked_layers(stack, names, i);
    }
    assert forall|i: int| 0 <= i < stack.len() implies {
        let c = #[trigger] stack[i];
        let now = after.channels@[to(i)];
        &&& 0 <= to(i) < after.channels@.len()
        &&& now == (Channel { group: now.group, ..c })
        &&& names.contains(c.uuid@) ==> (now.group matches Some(g) && g@ == uuid)
        &&& !names.contains(c.uuid@) ==> now.group == c.group
    } by {
        assert(gathered[to(i)] == stack[i]);
        lemma_who_is_picked(stack, names, to(i));
        let at = blocks::landing(places, places.last());
        assert(places.contains(i) == names.contains(stack[i].uuid@));
        assert(to(places[places.len() - 1]) == at + places.len() - 1);
        if places.contains(i) {
            let t = places.index_of(i);
            assert(to(places[t]) == at + t);
        }
        assert(after.channels@[to(i)] == after.channels@[to(i)]);
    }
    assert forall|i: int, j: int|
        0 <= i < j < stack.len() && names.contains(stack[i].uuid@) && names.contains(
            stack[j].uuid@,
        ) implies #[trigger] to(i) < #[trigger] to(j) <= to(i) + (j - i) by {
        assert(places.contains(i) && places.contains(j));
        let t = places.index_of(i);
        let u = places.index_of(j);
        assert(to(places[t]) == to(places[0]) + t);
        assert(to(places[u]) == to(places[0]) + u);
        if u <= t {
            assert(u < t ==> places[u] < places[t]);
        }
        lemma_rising_gap(places, stack.len(), t, u);
    }
    to
}

proof fn lemma_rising_gap(places: Seq<int>, len: nat, t: int, u: int)
    requires
        blocks::rising(places, len),
        0 <= t <= u < places.len(),
    ensures
        u - t <= places[u] - places[t],
    decreases u - t,
{
    if t < u {
        lemma_rising_gap(places, len, t, u - 1);
        assert(places[u - 1] < places[u]);
    }
}

/// Dissolving a group leaves its members in place without a group, drops the group, and
/// changes nothing else.
pub proof fn law_dissolved_group<E, M>(before: Mixer<E, M>, after: Mixer<E, M>, uuid: Name, i: int)
    requires
        grouping::is_ungrouped(before, after, uuid),
        0 <= i < before.channels@.len(),
    ensures
        after.channels@.len() == before.channels@.len(),
        after.channels@[i] == (Channel {
            group: if before.channels@[i].group matches Some(g) && g@ == uuid {
                None
            } else {
                before.channels@[i].group
            },
            ..before.channels@[i]
        }),
        after.groups@ == before.groups@.filter(|g: ChannelGroup<E, M>| g.uuid@ != uuid),
{
    let c = before.channels@[i];
    let now = after.channels@[i];
    assert(types::name_of(c.group) == Some(uuid) <==> (c.group matches Some(g) && g@ == uuid));
    assert(grouping::other_than::<E, M>(uuid) =~= (|g: ChannelGroup<E, M>| g.uuid@ != uuid));
}

/// Grouping adds one group behind those that there were, a new one of the given name,
/// and changes nothing of the mixer but its stack, its groups and its generation.
pub proof fn law_grouping_adds_one_group<E, M>(
    before: Mixer<E, M>,
    after: Mixer<E, M>,
    names: Seq<Name>,
    uuid: Name,
    name: Name,
    mix: M,
)
    requires
        grouping::is_grouped(before, after, names, uuid, name, mix),
    ensures
        after.groups@.len() == before.groups@.len() + 1,
        forall|g: int| 0 <= g < before.groups@.len() ==> after.groups@[g] == before.groups@[g],
        after.groups@[before.groups@.len() as int].uuid@ == uuid,
        after.groups@[before.groups@.len() as int].name@ == name,
        after.generation != before.generation,
        after == (Mixer {
            channels: after.channels,
            groups: after.groups,
            generation: after.generation,
            ..before
        }),
{
    assert forall|g: int| 0 <= g < before.groups@.len() implies after.groups@[g]
        == before.groups@[g] by {
        assert(after.groups@.drop_last()[g] == before.groups@[g]);
    }
}

} // verus!
