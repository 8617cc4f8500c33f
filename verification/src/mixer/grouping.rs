//! Grouping layers, moving groups and dissolving them.

use vstd::prelude::*;

use crate::mixer::blocks;
use crate::mixer::blocks::move_block;
use crate::mixer::groups::is_name;
use crate::mixer::nesting;
use crate::mixer::nesting::{ChannelInfo, Name};
use crate::mixer::types;
use crate::mixer::types::{Channel, ChannelGroup, Mixer, MAX_GROUPS};
use crate::order;
use crate::order::order_by_key;

verus! {

/// The views of names.
pub open spec fn names_of(names: Seq<String>) -> Seq<Name> {
    names.map_values(|s: String| s@)
}

/// The places of the named channels, in the order of the names; a name without a channel
/// is passed over.
pub open spec fn picks(cs: Seq<ChannelInfo>, names: Seq<Name>) -> Seq<int> {
    names.filter_map(|name: Name| nesting::channel_at(cs, name))
}

/// Places as sort keys.
pub open spec fn place_keys(places: Seq<int>) -> Seq<u64> {
    places.map_values(|p: int| p as u64)
}

/// Places, lowest first.
pub open spec fn sorted(places: Seq<int>) -> Seq<int> {
    Seq::new(places.len(), |i: int| places[order::stable_order(place_keys(places))[i]])
}

/// Whether the items at `places` can be taken out of a stack and put down in one piece at
/// `anchor`.
pub open spec fn can_gather<T>(s: Seq<T>, places: Seq<int>, anchor: int) -> bool {
    &&& blocks::can_lift(s, places)
    &&& 0 <= blocks::landing(places, anchor) <= s.len() - places.len()
}

/// Whether `after` is `before` with the picked channels put into a group, or taken out of
/// theirs.
pub open spec fn regrouped<E, M>(
    before: Seq<Channel<E, M>>,
    after: Seq<Channel<E, M>>,
    picked: spec_fn(int) -> bool,
    group: Option<Name>,
) -> bool {
    &&& after.len() == before.len()
    &&& forall|j: int|
        0 <= j < before.len() ==> if picked(j) {
            &&& #[trigger] after[j] == (Channel { group: after[j].group, ..before[j] })
            &&& types::name_of(after[j].group) == group
        } else {
            after[j] == before[j]
        }
}

/// What the nesting rules read of channels.
pub open spec fn infos<E, M>(channels: Seq<Channel<E, M>>) -> Seq<ChannelInfo> {
    channels.map_values(|c: Channel<E, M>| c.info())
}

/// Whether a place is that of the first channel of one of the names.
pub open spec fn is_pick(cs: Seq<ChannelInfo>, names: Seq<Name>, place: int) -> bool {
    exists|n: int|
        0 <= n < names.len() && nesting::channel_at(cs, #[trigger] names[n]) == Some(place)
}

/// Whether `after` is `before` with the named layers gathered where the topmost of them was
/// and made a new group.
pub open spec fn is_grouped<E, M>(
    before: Mixer<E, M>,
    after: Mixer<E, M>,
    names: Seq<Name>,
    uuid: Name,
    name: Name,
    mix: M,
) -> bool {
    let places = sorted(picks(before.channel_infos(), names));
    let gathered = blocks::block_moved(before.channels@, places, places.last());
    &&& after == (Mixer {
        channels: after.channels,
        groups: after.groups,
        generation: types::next_generation(before.generation),
        ..before
    })
    &&& regrouped(
        gathered,
        after.channels@,
        |j: int| is_pick(infos(gathered), names, j),
        Some(uuid),
    )
    &&& after.groups@.len() == before.groups@.len() + 1
    &&& after.groups@.drop_last() == before.groups@
    &&& after.groups@.last().fresh(uuid, name, mix)
}

/// Whether a group has another identity.
pub open spec fn other_than<E, M>(uuid: Name) -> spec_fn(ChannelGroup<E, M>) -> bool {
    |g: ChannelGroup<E, M>| g.uuid@ != uuid
}

/// Whether `after` is `before` with a group dissolved: its members are in no group, and it
/// is gone.
pub open spec fn is_ungrouped<E, M>(before: Mixer<E, M>, after: Mixer<E, M>, uuid: Name) -> bool {
    &&& after == (Mixer {
        channels: after.channels,
        groups: after.groups,
        generation: types::next_generation(before.generation),
        ..before
    })
    &&& regrouped(
        before.channels@,
        after.channels@,
        |j: int| types::name_of(before.channels@[j].group) == Some(uuid),
        None,
    )
    &&& after.groups@ == before.groups@.filter(other_than(uuid))
}

impl<E, M> Mixer<E, M> {
    /// The places of the named channels.
    fn find_channels(&self, names: &[String]) -> (places: Vec<usize>)
        ensures
            order::as_positions(places@) == picks(self.channel_infos(), names_of(names@)),
            forall|i: int| 0 <= i < places@.len() ==> #[trigger] places@[i] < self.channels@.len(),
    {
        let ghost cs = self.channel_infos();
        let ghost all = names_of(names@);
        let mut places: Vec<usize> = Vec::new();
        let mut n: usize = 0;
        assert(order::as_positions(places@) =~= picks(cs, all.take(0)));
        while n < names.len()
            invariant
                n <= names.len(),
                cs == self.channel_infos(),
                all == names_of(names@),
                order::as_positions(places@) == picks(cs, all.take(n as int)),
                forall|i: int|
                    0 <= i < places@.len() ==> #[trigger] places@[i] < self.channels@.len(),
            decreases names.len() - n,
        {
            assert(all.take(n + 1).drop_last() =~= all.take(n as int));
            assert(all.take(n + 1).last() == names@[n as int]@);
            let ghost before = places@;
            if let Some(i) = self.find_channel(&names[n]) {
                places.push(i);
                assert(order::as_positions(places@) =~= order::as_positions(before) + seq![
                    i as int,
                ]);
            }
            n = n + 1;
        }
        assert(all.take(n as int) =~= all);
        places
    }

    /// Puts the first channel of that name into a group, or takes it out of its own.
    fn assign_group(&mut self, layer: &String, group: Option<String>)
        ensures
            *final(self) == (Mixer { channels: final(self).channels, ..*old(self) }),
            regrouped(
                old(self).channels@,
                final(self).channels@,
                |j: int| nesting::channel_at(old(self).channel_infos(), layer@) == Some(j),
                types::name_of(group),
            ),
    {
        proof {
            nesting::lemma_channel_at(self.channel_infos(), layer@);
        }
        if let Some(i) = self.find_channel(layer) {
            self.channels[i].group = group;
        }
    }

    /// Gathers the named layers together and makes them a group.
    ///
    /// They are moved to sit where the topmost of them was before the group is formed.
    /// Grouping gathers: leaving members scattered through the stack would put
    /// non-members in the middle of a composite that is supposed to be one image. With
    /// fewer than two of the layers there, nothing changes; past [`MAX_GROUPS`] groups
    /// the layers are gathered and no group is made.
    pub fn group_channels(
        &mut self,
        uuid: &str,
        name: &str,
        mix: M,
        members: &[String],
    ) -> (made: Option<String>)
        requires
            picks(old(self).channel_infos(), names_of(members@)).len() >= 2 ==> can_gather(
                old(self).channels@,
                sorted(picks(old(self).channel_infos(), names_of(members@))),
                sorted(picks(old(self).channel_infos(), names_of(members@))).last(),
            ),
        ensures
            ({
                let places = sorted(picks(old(self).channel_infos(), names_of(members@)));
                let gathered = blocks::block_moved(old(self).channels@, places, places.last());
                let names = names_of(members@);
                if places.len() < 2 {
                    made is None && *final(self) == *old(self)
                } else if old(self).groups@.len() >= MAX_GROUPS {
                    &&& made is None
                    &&& *final(self) == (Mixer {
                        channels: final(self).channels,
                        generation: types::next_generation(old(self).generation),
                        ..*old(self)
                    })
                    &&& final(self).channels@ == gathered
                } else {
                    &&& made matches Some(s) && s@ == uuid@
                    &&& is_grouped(*old(self), *final(self), names, uuid@, name@, mix)
                }
            }),
    {
        let ghost cs = self.channel_infos();
        let ghost names = names_of(members@);
        let found = self.find_channels(members);
        let ghost picked = picks(cs, names);
        if found.len() < 2 {
            return None;
        }
        let places = sort_places(&found);
        assert(order::as_positions(found@) == picked);
        let anchor: usize = places[places.len() - 1];
        assert(order::as_positions(places@).last() == anchor);
        move_block(&mut self.channels, &places, anchor);
        let ghost gathered = self.channels@;
        if self.groups.len() >= MAX_GROUPS {
            self.invalidate_composite_cache();
            return None;
        }
        let mut n: usize = 0;
        assert(regrouped(
            gathered,
            self.channels@,
            |j: int| is_pick(infos(gathered), names.take(0), j),
            Some(uuid@),
        ));
        while n < members.len()
            invariant
                n <= members.len(),
                names == names_of(members@),
                *self == (Mixer { channels: self.channels, ..*old(self) }),
                regrouped(
                    gathered,
                    self.channels@,
                    |j: int| is_pick(infos(gathered), names.take(n as int), j),
                    Some(uuid@),
                ),
            decreases members.len() - n,
        {
            let ghost here = self.channels@;
            self.assign_group(&members[n], Some(uuid.to_owned()));
            proof {
                lemma_same_uuids(gathered, here, names[n as int]);
                lemma_next_pick(gathered, here, self.channels@, names, n as int, Some(uuid@));
            }
            n = n + 1;
        }
        assert(names.take(n as int) =~= names);
        self.groups.push(ChannelGroup::new(uuid, name, mix));
        assert(self.groups@.drop_last() =~= old(self).groups@);
        self.invalidate_composite_cache();
        Some(uuid.to_owned())
    }

    /// Moves a whole group so that it sits where `target` is, keeping the members in
    /// their own order.
    ///
    /// Moving members one at a time would reverse them, or interleave them with whatever
    /// they pass on the way; the block comes out and goes back in one piece. A group
    /// without members, a target that is not there and one inside the group change
    /// nothing.
    pub fn move_group(&mut self, group: &str, target: &str)
        ensures
            ({
                let cs = old(self).channel_infos();
                let members = nesting::members(cs, group@);
                match nesting::channel_at(cs, target@) {
                    Some(to) if members.len() > 0 && !members.contains(to) && cs[members[0]].uuid
                        != target@ => {
                        &&& *final(self) == (Mixer {
                            channels: final(self).channels,
                            generation: types::next_generation(old(self).generation),
                            ..*old(self)
                        })
                        &&& final(self).channels@ == blocks::block_moved(
                            old(self).channels@,
                            members,
                            to,
                        )
                    },
                    _ => *final(self) == *old(self),
                }
            }),
    {
        let ghost cs = self.channel_infos();
        let members = self.group_members(group);
        let ghost all = nesting::members(cs, group@);
        proof {
            lemma_members_rise(cs, group@, cs.len());
            nesting::lemma_channel_at(cs, target@);
        }
        if members.len() == 0 {
            return;
        }
        let name = target.to_owned();
        assert(order::as_positions(members@)[0] == members@[0] as int);
        assert(all[0] < cs.len());
        assert(cs[all[0]] == self.channels@[all[0]].info());
        if self.channels[members[0]].uuid == name {
            return;
        }
        let to: usize = match self.find_channel(&name) {
            None => {
                return;
            },
            Some(i) => i,
        };
        let mut n: usize = 0;
        while n < members.len()
            invariant
                n <= members.len(),
                order::as_positions(members@) == all,
                forall|j: int| 0 <= j < n ==> #[trigger] all[j] != to,
                nesting::channel_at(cs, target@) == Some(to as int),
                *self == *old(self),
                cs == self.channel_infos(),
                all == nesting::members(cs, group@),
            decreases members.len() - n,
        {
            assert(order::as_positions(members@)[n as int] == members@[n as int] as int);
            if members[n] == to {
                assert(all.contains(to as int));
                return;
            }
            n = n + 1;
        }
        proof {
            assert(!all.contains(to as int));
            blocks::law_lift_rising(self.channels@, all);
            assert(0 <= blocks::settled(all, to as int));
        }
        move_block(&mut self.channels, &members, to);
        self.invalidate_composite_cache();
    }

    /// Puts one layer into a group, or takes it out with `None`.
    ///
    /// Moving it next to the group's other members is the point: it goes on top of them.
    /// Dropping a layer onto a group it already sits beside changes only its membership.
    pub fn set_channel_group(&mut self, layer: &str, group: Option<String>)
        ensures
            ({
                let cs = old(self).channel_infos();
                match nesting::channel_at(cs, layer@) {
                    None => *final(self) == *old(self),
                    Some(i) => {
                        let joined = joined_stack(
                            old(self).channels@,
                            i,
                            types::name_of(group),
                        );
                        &&& *final(self) == (Mixer {
                            channels: final(self).channels,
                            generation: types::next_generation(old(self).generation),
                            ..*old(self)
                        })
                        &&& regrouped(
                            joined,
                            final(self).channels@,
                            |j: int| nesting::channel_at(infos(joined), layer@) == Some(j),
                            types::name_of(group),
                        )
                    },
                }
            }),
    {
        let ghost cs = self.channel_infos();
        let name = layer.to_owned();
        let i: usize = match self.find_channel(&name) {
            None => {
                return;
            },
            Some(i) => i,
        };
        if let Some(gid) = &group {
            let members = self.group_members(gid.as_str());
            proof {
                lemma_members_rise(cs, gid@, cs.len());
            }
            if members.len() > 0 {
                let top: usize = members[members.len() - 1];
                assert(order::as_positions(members@).last() == top);
                assert(top < cs.len());
                let ch = self.channels.remove(i);
                let to: usize = if i <= top {
                    top
                } else {
                    top + 1
                };
                let at: usize = if to < self.channels.len() {
                    to
                } else {
                    self.channels.len()
                };
                self.channels.insert(at, ch);
            }
        }
        let ghost joined = self.channels@;
        assert(joined == joined_stack(old(self).channels@, i as int, types::name_of(group)));
        assert(self.channel_infos() == infos(joined));
        self.assign_group(&name, group);
        self.invalidate_composite_cache();
    }

    /// Dissolves a group, leaving its members in the stack.
    pub fn ungroup(&mut self, uuid: &str)
        ensures
            is_ungrouped(*old(self), *final(self), uuid@),
    {
        let name = uuid.to_owned();
        let mut i: usize = 0;
        while i < self.channels.len()
            invariant
                i <= self.channels.len(),
                name@ == uuid@,
                *self == (Mixer { channels: self.channels, ..*old(self) }),
                regrouped(
                    old(self).channels@,
                    self.channels@,
                    |j: int| j < i && types::name_of(old(self).channels@[j].group) == Some(uuid@),
                    None,
                ),
            decreases self.channels.len() - i,
        {
            assert(self.channels@[i as int] == old(self).channels@[i as int]);
            if is_name(&self.channels[i].group, &name) {
                self.channels[i].group = None;
            }
            i = i + 1;
        }
        let ghost keep = other_than::<E, M>(uuid@);
        let ghost all = self.groups@;
        let mut k: usize = 0;
        let ghost mut seen: int = 0;
        proof {
            reveal(Seq::filter);
            assert(self.groups@ =~= all.take(0).filter(keep) + all.skip(0));
        }
        while k < self.groups.len()
            invariant
                k <= self.groups.len(),
                name@ == uuid@,
                all == old(self).groups@,
                keep == other_than::<E, M>(uuid@),
                0 <= seen <= all.len(),
                k == all.take(seen).filter(keep).len(),
                self.groups@ == all.take(seen).filter(keep) + all.skip(seen),
                *self == (Mixer { channels: self.channels, groups: self.groups, ..*old(self) }),
                regrouped(
                    old(self).channels@,
                    self.channels@,
                    |j: int| types::name_of(old(self).channels@[j].group) == Some(uuid@),
                    None,
                ),
            decreases self.groups.len() - k,
        {
            proof {
                reveal(Seq::filter);
                assert(all.take(seen + 1).drop_last() =~= all.take(seen));
                assert(all.take(seen + 1).last() == all[seen]);
                assert(self.groups@[k as int] == all[seen]);
            }
            if self.groups[k].uuid == name {
                self.groups.remove(k);
                proof {
                    seen = seen + 1;
                    assert(self.groups@ =~= all.take(seen).filter(keep) + all.skip(seen));
                }
            } else {
                k = k + 1;
                proof {
                    seen = seen + 1;
                    assert(self.groups@ =~= all.take(seen).filter(keep) + all.skip(seen));
                }
            }
        }
        assert(all.take(seen) =~= all);
        assert(self.groups@ =~= all.filter(keep));
        self.invalidate_composite_cache();
    }
}

/// The stack after the channel at `i` was moved next to the members of a group: on top of
/// the topmost of them.
pub open spec fn joined_stack<E, M>(
    channels: Seq<Channel<E, M>>,
    i: int,
    group: Option<Name>,
) -> Seq<Channel<E, M>> {
    match group {
        Some(g) => {
            let members = nesting::members(infos(channels), g);
            if members.len() == 0 {
                channels
            } else {
                let top = members.last();
                channels.remove(i).insert(
                    if i <= top {
                        top
                    } else {
                        top + 1
                    },
                    channels[i],
                )
            }
        },
        None => channels,
    }
}

/// The places, lowest first.
fn sort_places(places: &Vec<usize>) -> (out: Vec<usize>)
    ensures
        order::as_positions(out@) == sorted(order::as_positions(places@)),
{
    let ghost all = order::as_positions(places@);
    let mut keys: Vec<u64> = Vec::new();
    let mut i: usize = 0;
    while i < places.len()
        invariant
            i <= places.len(),
            all == order::as_positions(places@),
            keys@ == place_keys(all).take(i as int),
        decreases places.len() - i,
    {
        keys.push(places[i] as u64);
        i = i + 1;
        assert(keys@ =~= place_keys(all).take(i as int));
    }
    assert(keys@ =~= place_keys(all));
    let by_key = order_by_key(&keys);
    let mut out: Vec<usize> = Vec::new();
    let mut k: usize = 0;
    while k < by_key.len()
        invariant
            k <= by_key.len(),
            by_key.len() == places.len(),
            all == order::as_positions(places@),
            keys@ == place_keys(all),
            forall|j: int|
                0 <= j < by_key.len() ==> #[trigger] by_key@[j] == order::stable_order(keys@)[j]
                    && by_key@[j] < places.len(),
            order::as_positions(out@) == sorted(all).take(k as int),
        decreases by_key.len() - k,
    {
        let ghost before = out@;
        let place: usize = places[by_key[k]];
        out.push(place);
        assert(order::as_positions(out@) =~= order::as_positions(before).push(place as int));
        assert(all[by_key@[k as int] as int] == place);
        k = k + 1;
        assert(order::as_positions(out@) =~= sorted(all).take(k as int));
    }
    assert(order::as_positions(out@) =~= sorted(all));
    out
}

proof fn lemma_members_rise(cs: Seq<ChannelInfo>, name: Name, n: nat)
    requires
        n <= cs.len(),
    ensures
        blocks::rising(nesting::members_below(cs, name, n), n),
    decreases n,
{
    if n > 0 {
        let before = nesting::members_below(cs, name, (n - 1) as nat);
        lemma_members_rise(cs, name, (n - 1) as nat);
        let all = nesting::members_below(cs, name, n);
        assert forall|i: int| 0 <= i < all.len() implies 0 <= #[trigger] all[i] < n by {
            if i < before.len() {
                assert(all[i] == before[i]);
            }
        }
        assert forall|i: int, j: int| 0 <= i < j < all.len() implies all[i] < all[j] by {
            assert(all[i] == before[i]);
            if j < before.len() {
                assert(all[j] == before[j]);
            }
        }
    }
}

/// Regrouping moves no channel: each name is found where it was.
proof fn lemma_same_uuids<E, M>(
    before: Seq<Channel<E, M>>,
    after: Seq<Channel<E, M>>,
    name: Name,
)
    requires
        after.len() == before.len(),
        forall|j: int| 0 <= j < before.len() ==> (#[trigger] after[j]).uuid == before[j].uuid,
    ensures
        nesting::channel_at(infos(after), name) == nesting::channel_at(infos(before), name),
{
    assert(infos(after).map_values(|c: ChannelInfo| c.uuid) =~= infos(before).map_values(
        |c: ChannelInfo| c.uuid,
    ));
}

proof fn lemma_next_pick<E, M>(
    gathered: Seq<Channel<E, M>>,
    here: Seq<Channel<E, M>>,
    next: Seq<Channel<E, M>>,
    names: Seq<Name>,
    n: int,
    group: Option<Name>,
)
    requires
        0 <= n < names.len(),
        regrouped(
            gathered,
            here,
            |j: int| is_pick(infos(gathered), names.take(n), j),
            group,
        ),
        nesting::channel_at(infos(here), names[n]) == nesting::channel_at(
            infos(gathered),
            names[n],
        ),
        regrouped(
            here,
            next,
            |j: int| nesting::channel_at(infos(here), names[n]) == Some(j),
            group,
        ),
    ensures
        regrouped(
            gathered,
            next,
            |j: int| is_pick(infos(gathered), names.take(n + 1), j),
            group,
        ),
{
    let cs = infos(gathered);
    let done = names.take(n);
    let more = names.take(n + 1);
    assert forall|j: int| is_pick(cs, more, j) <==> (is_pick(cs, done, j) || nesting::channel_at(
        cs,
        names[n],
    ) == Some(j)) by {
        if is_pick(cs, done, j) {
            let k = choose|k: int|
                0 <= k < done.len() && nesting::channel_at(cs, #[trigger] done[k]) == Some(j);
            assert(more[k] == done[k]);
        }
        if nesting::channel_at(cs, names[n]) == Some(j) {
            assert(more[n] == names[n]);
        }
        if is_pick(cs, more, j) {
            let k = choose|k: int|
                0 <= k < more.len() && nesting::channel_at(cs, #[trigger] more[k]) == Some(j);
            if k < n {
                assert(done[k] == more[k]);
            }
        }
    }
    assert forall|j: int| 0 <= j < gathered.len() implies if is_pick(cs, more, j) {
        &&& #[trigger] next[j] == (Channel { group: next[j].group, ..gathered[j] })
        &&& types::name_of(next[j].group) == group
    } else {
        next[j] == gathered[j]
    } by {
        assert(here[j] == here[j]);
    }
}

} // verus!
