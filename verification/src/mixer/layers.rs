//! Which layers a group holds, in which order groups are drawn, and how they nest.

use vstd::prelude::*;

use crate::mixer::groups::{copy_name, is_name};
use crate::mixer::nesting;
use crate::mixer::nesting::{ChannelInfo, GroupInfo, Item, Name};
use crate::mixer::types;
use crate::mixer::types::{ChannelGroup, Mixer};
use crate::order;
use crate::order::order_by_key;

verus! {

/// One thing a group composites: a member layer, or a nested group's output.
#[derive(Debug, Clone, PartialEq, Eq)]
pub enum GroupItem {
    Channel(usize),
    Group(String),
}

impl View for GroupItem {
    type V = Item;

    open spec fn view(&self) -> Item {
        match self {
            GroupItem::Channel(i) => Item::Channel(*i as int),
            GroupItem::Group(name) => Item::Group(name@),
        }
    }
}

/// The views of items.
pub open spec fn item_views(items: Seq<GroupItem>) -> Seq<Item> {
    items.map_values(|i: GroupItem| i@)
}

/// The names of the two decks.
pub open spec fn deck_names(decks: Option<[String; 2]>) -> Option<(Name, Name)> {
    match decks {
        Some(d) => Some((d@[0]@, d@[1]@)),
        None => None,
    }
}

impl<E, M> Mixer<E, M> {
    /// Whether channel `i` lies inside a group, at any depth.
    pub fn channel_in_group(&self, i: usize, uuid: &String) -> (r: bool)
        ensures
            r == (i < self.channels@.len() && nesting::inside(
                self.group_infos(),
                self.channel_infos()[i as int],
                uuid@,
            )),
    {
        let ghost gs = self.group_infos();
        if i >= self.channels.len() {
            return false;
        }
        let ghost c = self.channel_infos()[i as int];
        let mut cur = copy_name(&self.channels[i].group);
        let mut k: usize = 0;
        loop
            invariant
                k <= self.groups.len(),
                i < self.channels@.len(),
                gs == self.group_infos(),
                c == self.channel_infos()[i as int],
                nesting::up(gs, c.group, k as nat) == types::name_of(cur),
                forall|j: nat| j < k ==> #[trigger] nesting::up(gs, c.group, j) != Some(uuid@),
            decreases self.groups.len() - k,
        {
            match &cur {
                None => {
                    proof {
                        lemma_not_inside(gs, c.group, uuid@, k as nat);
                    }
                    return false;
                },
                Some(name) => {
                    if *name == *uuid {
                        return true;
                    }
                    assert(nesting::up(gs, c.group, k as nat) != Some(uuid@));
                    let next = match self.find_group(name) {
                        Some(j) => {
                            assert(gs[j as int] == self.groups@[j as int].info());
                            copy_name(&self.groups[j].parent)
                        },
                        None => None,
                    };
                    cur = next;
                },
            }
            if k == self.groups.len() {
                proof {
                    lemma_not_inside(gs, c.group, uuid@, (k + 1) as nat);
                }
                return false;
            }
            k = k + 1;
        }
    }

    /// Where a group sits in the stack: the index of its topmost member, at any depth.
    /// `None` when it holds no channels.
    pub fn group_stack_pos(&self, uuid: &String) -> (r: Option<usize>)
        ensures
            match (
                r,
                nesting::stack_pos(self.channel_infos(), self.group_infos(), uuid@),
            ) {
                (Some(i), Some(p)) => i == p && i < self.channels@.len(),
                (None, None) => true,
                _ => false,
            },
    {
        let ghost cs = self.channel_infos();
        let ghost gs = self.group_infos();
        let mut n: usize = self.channels.len();
        while n > 0
            invariant
                n <= self.channels.len(),
                cs == self.channel_infos(),
                gs == self.group_infos(),
                nesting::stack_pos(cs, gs, uuid@) == nesting::topmost_below(
                    cs,
                    gs,
                    uuid@,
                    n as nat,
                ),
            decreases n,
        {
            if self.channel_in_group(n - 1, uuid) {
                return Some(n - 1);
            }
            n = n - 1;
        }
        None
    }

    /// Channel indices belonging to a group, in stack order.
    pub fn group_members(&self, uuid: &str) -> (members: Vec<usize>)
        ensures
            order::as_positions(members@) == nesting::members(self.channel_infos(), uuid@),
    {
        let ghost cs = self.channel_infos();
        let name = uuid.to_owned();
        let mut members: Vec<usize> = Vec::new();
        let mut n: usize = 0;
        assert(order::as_positions(members@) =~= Seq::<int>::empty());
        while n < self.channels.len()
            invariant
                n <= self.channels.len(),
                cs == self.channel_infos(),
                name@ == uuid@,
                order::as_positions(members@) == nesting::members_below(cs, uuid@, n as nat),
            decreases self.channels.len() - n,
        {
            assert(cs[n as int] == self.channels@[n as int].info());
            if is_name(&self.channels[n].group, &name) {
                let ghost before = members@;
                members.push(n);
                assert(order::as_positions(members@) =~= order::as_positions(before).push(
                    n as int,
                ));
            }
            n = n + 1;
        }
        members
    }

    /// The group owning a channel, if any.
    pub fn group_of(&self, index: usize) -> (g: Option<&ChannelGroup<E, M>>)
        ensures
            match self.owner_place(index as int) {
                Some(p) => g == Some(&self.groups@[p]),
                None => g is None,
            },
    {
        if index >= self.channels.len() {
            return None;
        }
        match &self.channels[index].group {
            None => None,
            Some(name) => match self.find_group(name) {
                Some(i) => Some(&self.groups[i]),
                None => None,
            },
        }
    }

    /// The place of the group that owns a channel.
    pub open spec fn owner_place(&self, index: int) -> Option<int> {
        if index < self.channels@.len() {
            match types::name_of(self.channels@[index].group) {
                Some(name) => nesting::group_at(self.group_infos(), name),
                None => None,
            }
        } else {
            None
        }
    }

    /// Which deck a group belongs to, if either: 0 for A, 1 for B.
    pub fn deck_of(&self, uuid: &str) -> (r: Option<usize>)
        ensures
            match (
                r,
                nesting::deck_index(self.group_infos(), deck_names(self.decks), uuid@),
            ) {
                (Some(i), Some(d)) => i == d,
                (None, None) => true,
                _ => false,
            },
    {
        match &self.decks {
            None => None,
            Some(decks) => {
                let top = self.top_level_ancestor(uuid);
                if decks[0] == top {
                    Some(0)
                } else if decks[1] == top {
                    Some(1)
                } else {
                    None
                }
            },
        }
    }

    /// Which deck a channel belongs to, if either. Resolves through nesting, so a layer
    /// three groups deep still reports the deck it ultimately lives on.
    pub fn deck_of_channel(&self, index: usize) -> (r: Option<usize>)
        ensures
            match (r, self.channel_deck(index as int)) {
                (Some(i), Some(d)) => i == d,
                (None, None) => true,
                _ => false,
            },
    {
        if index >= self.channels.len() {
            return None;
        }
        match &self.channels[index].group {
            None => None,
            Some(name) => self.deck_of(name.as_str()),
        }
    }

    /// The deck of a channel's group.
    pub open spec fn channel_deck(&self, index: int) -> Option<int> {
        if index < self.channels@.len() {
            match types::name_of(self.channels@[index].group) {
                Some(name) => nesting::deck_index(
                    self.group_infos(),
                    deck_names(self.decks),
                    name,
                ),
                None => None,
            }
        } else {
            None
        }
    }

    /// The direct children of a group, member channels and child groups, bottom of the
    /// stack first.
    ///
    /// A child group takes the stack position of its own topmost member, so a nested
    /// group composites where its layers actually sit.
    pub fn group_items(&self, uuid: &str) -> (items: Vec<GroupItem>)
        ensures
            item_views(items@) == nesting::items(self.channel_infos(), self.group_infos(), uuid@),
            forall|i: int|
                0 <= i < items@.len() ==> (#[trigger] items@[i] matches GroupItem::Channel(c) ==> c
                    < self.channels@.len()),
    {
        let ghost cs = self.channel_infos();
        let ghost gs = self.group_infos();
        let ghost es = nesting::entries(cs, gs, uuid@);
        let name = uuid.to_owned();
        let members = self.group_members(uuid);
        let mut keys: Vec<u64> = Vec::new();
        let mut found: Vec<GroupItem> = Vec::new();
        let mut i: usize = 0;
        proof {
            lemma_members(cs, uuid@, cs.len());
        }
        while i < members.len()
            invariant
                i <= members.len(),
                cs == self.channel_infos(),
                order::as_positions(members@) == nesting::members(cs, uuid@),
                forall|j: int|
                    0 <= j < members@.len() ==> 0 <= #[trigger] nesting::members(cs, uuid@)[j]
                        < cs.len(),
                keys@.len() == i,
                found@.len() == i,
                forall|j: int|
                    0 <= j < i ==> (#[trigger] found@[j])@ == nesting::member_entries(
                        cs,
                        uuid@,
                    )[j].1,
                forall|j: int|
                    0 <= j < i ==> #[trigger] keys@[j] == nesting::member_entries(cs, uuid@)[j].0,
                forall|j: int|
                    0 <= j < i ==> (#[trigger] found@[j] matches GroupItem::Channel(c) ==> c
                        < self.channels@.len()),
            decreases members.len() - i,
        {
            assert(order::as_positions(members@)[i as int] == members@[i as int] as int);
            keys.push(members[i] as u64);
            found.push(GroupItem::Channel(members[i]));
            i = i + 1;
        }
        let ghost base = nesting::member_entries(cs, uuid@);
        assert(base.len() == members@.len());
        let mut n: usize = 0;
        assert(base + nesting::child_entries_below(cs, gs, uuid@, 0) =~= base);
        while n < self.groups.len()
            invariant
                n <= self.groups.len(),
                name@ == uuid@,
                cs == self.channel_infos(),
                gs == self.group_infos(),
                base == nesting::member_entries(cs, uuid@),
                ({
                    let part = base + nesting::child_entries_below(cs, gs, uuid@, n as nat);
                    &&& keys@.len() == part.len()
                    &&& found@.len() == part.len()
                    &&& forall|j: int|
                        0 <= j < part.len() ==> (#[trigger] found@[j])@ == part[j].1
                    &&& forall|j: int|
                        0 <= j < part.len() ==> #[trigger] keys@[j] == part[j].0
                }),
                forall|j: int|
                    0 <= j < found@.len() ==> (#[trigger] found@[j] matches GroupItem::Channel(c)
                        ==> c < self.channels@.len()),
            decreases self.groups.len() - n,
        {
            let g = &self.groups[n];
            assert(gs[n as int] == g.info());
            if is_name(&g.parent, &name) && self.group_depth(g.uuid.as_str()).is_some() {
                if let Some(pos) = self.group_stack_pos(&g.uuid) {
                    keys.push(pos as u64);
                    found.push(GroupItem::Group(g.uuid.clone()));
                }
            }
            n = n + 1;
        }
        assert(keys@ =~= nesting::entry_keys(es));
        let sorted = order_by_key(&keys);
        let mut items: Vec<GroupItem> = Vec::new();
        let mut k: usize = 0;
        while k < sorted.len()
            invariant
                k <= sorted.len(),
                sorted.len() == keys.len(),
                keys@ == nesting::entry_keys(es),
                found@.len() == es.len(),
                keys@.len() == es.len(),
                forall|j: int| 0 <= j < es.len() ==> (#[trigger] found@[j])@ == es[j].1,
                forall|j: int|
                    0 <= j < sorted.len() ==> #[trigger] sorted@[j] == order::stable_order(
                        keys@,
                    )[j] && sorted@[j] < keys.len(),
                items@.len() == k,
                forall|j: int| 0 <= j < k ==> (#[trigger] items@[j])@ == nesting::by_place(es)[j],
                forall|j: int|
                    0 <= j < found@.len() ==> (#[trigger] found@[j] matches GroupItem::Channel(c)
                        ==> c < self.channels@.len()),
                forall|j: int|
                    0 <= j < items@.len() ==> (#[trigger] items@[j] matches GroupItem::Channel(c)
                        ==> c < self.channels@.len()),
            decreases sorted.len() - k,
        {
            let item = match &found[sorted[k]] {
                GroupItem::Channel(c) => GroupItem::Channel(*c),
                GroupItem::Group(name) => GroupItem::Group(name.clone()),
            };
            items.push(item);
            k = k + 1;
        }
        assert(item_views(items@) =~= nesting::by_place(es));
        items
    }
}

proof fn lemma_not_inside(gs: Seq<GroupInfo>, from: Option<Name>, name: Name, k: nat)
    requires
        forall|j: nat| j < k ==> #[trigger] nesting::up(gs, from, j) != Some(name),
        nesting::up(gs, from, k) is None || k > gs.len(),
    ensures
        forall|j: nat| #[trigger] nesting::up(gs, from, j) != Some(name),
{
    assert forall|j: nat| #[trigger] nesting::up(gs, from, j) != Some(name) by {
        if nesting::up(gs, from, j) is Some {
            if nesting::up(gs, from, k) is None && j >= k {
                nesting::lemma_up_ended(gs, from, k, j);
            }
            let m = nesting::lemma_up_bounded(gs, from, j);
        }
    }
}

pub proof fn lemma_members(cs: Seq<ChannelInfo>, name: Name, n: nat)
    requires
        n <= cs.len(),
    ensures
        forall|j: int|
            0 <= j < nesting::members_below(cs, name, n).len() ==> 0
                <= #[trigger] nesting::members_below(cs, name, n)[j] < n,
    decreases n,
{
    if n > 0 {
        let before = nesting::members_below(cs, name, (n - 1) as nat);
        lemma_members(cs, name, (n - 1) as nat);
        assert forall|j: int| 0 <= j < nesting::members_below(cs, name, n).len() implies 0
            <= #[trigger] nesting::members_below(cs, name, n)[j] < n by {
            if j < before.len() {
                assert(nesting::members_below(cs, name, n)[j] == before[j]);
            }
        }
    }
}

impl<E, M> Mixer<E, M> {
    /// The places of the groups, deepest first, ties in their order.
    pub(crate) fn render_places(&self) -> (places: Vec<usize>)
        ensures
            order::as_positions(places@) == nesting::render_order(self.group_infos()),
            places@.len() == self.groups@.len(),
            forall|i: int|
                0 <= i < places@.len() ==> #[trigger] places@[i] == nesting::render_order(
                    self.group_infos(),
                )[i] && places@[i] < self.groups@.len(),
    {
        let ghost gs = self.group_infos();
        let mut keys: Vec<u64> = Vec::new();
        let mut n: usize = 0;
        while n < self.groups.len()
            invariant
                n <= self.groups.len(),
                gs == self.group_infos(),
                keys@ == nesting::render_keys(gs).take(n as int),
            decreases self.groups.len() - n,
        {
            let depth: usize = match self.group_depth(self.groups[n].uuid.as_str()) {
                Some(d) => d,
                None => 0,
            };
            assert(gs[n as int] == self.groups@[n as int].info());
            keys.push((self.groups.len() - depth) as u64);
            n = n + 1;
            assert(keys@ =~= nesting::render_keys(gs).take(n as int));
        }
        assert(keys@ =~= nesting::render_keys(gs));
        order_by_key(&keys)
    }

    /// The groups' uuids, deepest first, so that a child is finished before its parent
    /// reads it.
    ///
    /// A group with a broken or cyclic parent chain sorts as top level, which keeps it
    /// rendering rather than dropping the layers inside it.
    pub fn group_render_order(&self) -> (uuids: Vec<String>)
        ensures
            uuids@.len() == self.groups@.len(),
            forall|i: int|
                0 <= i < uuids@.len() ==> (#[trigger] uuids@[i])@
                    == self.groups@[nesting::render_order(self.group_infos())[i]].uuid@,
    {
        let places = self.render_places();
        let mut uuids: Vec<String> = Vec::new();
        let mut n: usize = 0;
        while n < places.len()
            invariant
                n <= places.len(),
                places@.len() == self.groups@.len(),
                forall|i: int|
                    0 <= i < places@.len() ==> #[trigger] places@[i] == nesting::render_order(
                        self.group_infos(),
                    )[i] && places@[i] < self.groups@.len(),
                uuids@.len() == n,
                forall|i: int|
                    0 <= i < n ==> (#[trigger] uuids@[i])@ == self.groups@[nesting::render_order(
                        self.group_infos(),
                    )[i]].uuid@,
            decreases places.len() - n,
        {
            uuids.push(self.groups[places[n]].uuid.clone());
            n = n + 1;
        }
        uuids
    }

    /// Nests `child` inside `parent` (`None` lifts it to top level).
    ///
    /// Refuses a cycle, as a group cannot become its own ancestor, and refuses a parent
    /// that does not exist. Returns whether the change was made.
    pub fn set_group_parent(&mut self, child: &str, parent: Option<&str>) -> (done: bool)
        ensures
            done == nesting::may_nest(old(self).group_infos(), child@, str_name(parent)),
            !done ==> *final(self) == *old(self),
            done ==> {
                let i = nesting::group_at(old(self).group_infos(), child@)->0;
                &&& *final(self) == (Mixer {
                    groups: final(self).groups,
                    generation: types::next_generation(old(self).generation),
                    ..*old(self)
                })
                &&& final(self).groups@ == old(self).groups@.update(
                    i,
                    (ChannelGroup { parent: final(self).groups@[i].parent, ..old(self).groups@[i] }),
                )
                &&& final(self).group_infos() == nesting::reparented(
                    old(self).group_infos(),
                    child@,
                    str_name(parent),
                )
            },
    {
        let ghost gs = self.group_infos();
        let name = child.to_owned();
        proof {
            nesting::lemma_group_at(gs, child@);
        }
        let at = match self.find_group(&name) {
            None => {
                return false;
            },
            Some(i) => i,
        };
        let mut owned: Option<String> = None;
        if let Some(p) = parent {
            let parent_name = p.to_owned();
            if parent_name == name || self.find_group(&parent_name).is_none() {
                return false;
            }
            if self.climbs_to(&parent_name, &name) {
                return false;
            }
            owned = Some(parent_name);
        }
        self.groups[at].parent = owned;
        self.invalidate_composite_cache();
        proof {
            let i = at as int;
            assert(self.groups@[i].info() == (GroupInfo {
                parent: str_name(parent),
                ..old(self).groups@[i].info()
            }));
            assert(self.group_infos() =~= nesting::reparented(gs, child@, str_name(parent)));
        }
        true
    }

    /// Whether the parent chain of `from` meets `name`.
    fn climbs_to(&self, from: &String, name: &String) -> (meets: bool)
        ensures
            meets == (exists|k: nat| #[trigger]
                nesting::up(self.group_infos(), Some(from@), k) == Some(name@)),
    {
        let ghost gs = self.group_infos();
        let mut cur = from.clone();
        let mut k: usize = 0;
        loop
            invariant
                k <= self.groups.len(),
                gs == self.group_infos(),
                nesting::up(gs, Some(from@), k as nat) == Some(cur@),
                forall|j: nat| j < k ==> #[trigger] nesting::up(gs, Some(from@), j) != Some(name@),
            decreases self.groups.len() - k,
        {
            if cur == *name {
                return true;
            }
            let mut next: Option<String> = None;
            if let Some(i) = self.find_group(&cur) {
                assert(gs[i as int] == self.groups@[i as int].info());
                next = copy_name(&self.groups[i].parent);
            }
            assert(nesting::up(gs, Some(from@), (k + 1) as nat) == types::name_of(next));
            assert(nesting::up(gs, Some(from@), k as nat) != Some(name@));
            match next {
                None => {
                    proof {
                        lemma_not_inside(gs, Some(from@), name@, (k + 1) as nat);
                    }
                    return false;
                },
                Some(p) => {
                    cur = p;
                },
            }
            if k == self.groups.len() {
                proof {
                    lemma_not_inside(gs, Some(from@), name@, (k + 1) as nat);
                }
                return false;
            }
            k = k + 1;
        }
    }
}

/// The view of an optional name that is borrowed.
pub open spec fn str_name(s: Option<&str>) -> Option<Name> {
    match s {
        Some(s) => Some(s@),
        None => None,
    }
}

} // verus!
