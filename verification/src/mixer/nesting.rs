//! What the nesting of groups means: who lies inside whom, how deep, and what of it
//! is heard.

use vstd::prelude::*;

use crate::order;

verus! {

/// A uuid or a display name.
pub type Name = Seq<char>;

/// What the nesting rules read of a group.
pub struct GroupInfo {
    pub uuid: Name,
    pub parent: Option<Name>,
    pub solo: bool,
    pub mute: bool,
}

/// What the nesting rules read of a channel.
pub struct ChannelInfo {
    pub uuid: Name,
    pub group: Option<Name>,
    pub solo: bool,
    pub mute: bool,
    pub active: bool,
}

/// The place of the first group of that name.
pub open spec fn group_at(gs: Seq<GroupInfo>, name: Name) -> Option<int> {
    gs.map_values(|g: GroupInfo| g.uuid).index_of_first(name)
}

/// The place of the first channel of that name.
pub open spec fn channel_at(cs: Seq<ChannelInfo>, name: Name) -> Option<int> {
    cs.map_values(|c: ChannelInfo| c.uuid).index_of_first(name)
}

/// The name of a group's parent; `None` at top level and for a name without a group.
pub open spec fn parent_of(gs: Seq<GroupInfo>, name: Name) -> Option<Name> {
    match group_at(gs, name) {
        Some(i) => gs[i].parent,
        None => None,
    }
}

/// The name met `n` steps up the parent chain. The last one of a broken chain is a
/// name without a group.
pub open spec fn up(gs: Seq<GroupInfo>, from: Option<Name>, n: nat) -> Option<Name>
    decreases n,
{
    if n == 0 {
        from
    } else {
        match up(gs, from, (n - 1) as nat) {
            Some(name) => parent_of(gs, name),
            None => None,
        }
    }
}

/// Whether the parent chain of `name` reaches a top-level group after `d` steps.
pub open spec fn sits_at(gs: Seq<GroupInfo>, name: Name, d: nat) -> bool {
    match up(gs, Some(name), d) {
        Some(top) => group_at(gs, top) is Some && parent_of(gs, top) is None,
        None => false,
    }
}

/// How many groups deep a group sits; `None` when its chain is broken or cyclic.
pub open spec fn depth(gs: Seq<GroupInfo>, name: Name) -> Option<nat> {
    if exists|d: nat| sits_at(gs, name, d) {
        Some(choose|d: nat| sits_at(gs, name, d))
    } else {
        None
    }
}

/// The outermost group around a group. One with a broken or cyclic chain counts as top
/// level itself.
pub open spec fn outermost(gs: Seq<GroupInfo>, name: Name) -> Name {
    match depth(gs, name) {
        Some(d) => up(gs, Some(name), d)->0,
        None => name,
    }
}

/// Whether some direct child of `scope` is soloed; `None` is the top level.
pub open spec fn solo_in(
    cs: Seq<ChannelInfo>,
    gs: Seq<GroupInfo>,
    scope: Option<Name>,
) -> bool {
    ||| exists|i: int| 0 <= i < cs.len() && (#[trigger] cs[i]).group == scope && cs[i].solo
    ||| exists|i: int| 0 <= i < gs.len() && (#[trigger] gs[i]).parent == scope && gs[i].solo
}

/// Whether a group passes its own level: not muted, and not silenced by a sibling's
/// solo.
pub open spec fn level_open(cs: Seq<ChannelInfo>, gs: Seq<GroupInfo>, g: GroupInfo) -> bool {
    !g.mute && (solo_in(cs, gs, g.parent) ==> g.solo)
}

/// Whether the group met `k` steps up from `name`, if there is one, passes its level.
pub open spec fn open_at(cs: Seq<ChannelInfo>, gs: Seq<GroupInfo>, name: Name, k: nat) -> bool {
    match up(gs, Some(name), k) {
        Some(a) => group_at(gs, a) matches Some(i) ==> level_open(cs, gs, gs[i]),
        None => true,
    }
}

/// Whether a group passes its own level and every level above it.
pub open spec fn group_heard(cs: Seq<ChannelInfo>, gs: Seq<GroupInfo>, name: Name) -> bool {
    forall|k: nat| #[trigger] open_at(cs, gs, name, k)
}

/// Whether a channel plays: active, not muted, not silenced by a sibling's solo, and
/// its group heard.
pub open spec fn channel_heard(cs: Seq<ChannelInfo>, gs: Seq<GroupInfo>, c: ChannelInfo) -> bool {
    &&& c.active
    &&& !c.mute
    &&& solo_in(cs, gs, c.group) ==> c.solo
    &&& c.group matches Some(g) ==> group_heard(cs, gs, g)
}

/// Whether a channel lies inside a group, at any depth.
pub open spec fn inside(gs: Seq<GroupInfo>, c: ChannelInfo, name: Name) -> bool {
    exists|k: nat| #[trigger] up(gs, c.group, k) == Some(name)
}

pub proof fn lemma_group_at(gs: Seq<GroupInfo>, name: Name)
    ensures
        group_at(gs, name) matches Some(i) ==> 0 <= i < gs.len() && gs[i].uuid == name && forall|j:
            int| 0 <= j < i ==> (#[trigger] gs[j]).uuid != name,
        group_at(gs, name) is None ==> forall|j: int|
            0 <= j < gs.len() ==> (#[trigger] gs[j]).uuid != name,
{
    let names = gs.map_values(|g: GroupInfo| g.uuid);
    names.index_of_first_ensures(name);
    match group_at(gs, name) {
        Some(i) => {
            assert forall|j: int| 0 <= j < i implies (#[trigger] gs[j]).uuid != name by {
                assert(names[j] == gs[j].uuid);
            }
        },
        None => {
            assert forall|j: int| 0 <= j < gs.len() implies (#[trigger] gs[j]).uuid != name by {
                assert(names[j] == gs[j].uuid);
            }
        },
    }
}

pub proof fn lemma_channel_at(cs: Seq<ChannelInfo>, name: Name)
    ensures
        channel_at(cs, name) matches Some(i) ==> 0 <= i < cs.len() && cs[i].uuid == name && forall|
            j: int,
        |
            0 <= j < i ==> (#[trigger] cs[j]).uuid != name,
        channel_at(cs, name) is None ==> forall|j: int|
            0 <= j < cs.len() ==> (#[trigger] cs[j]).uuid != name,
{
    let names = cs.map_values(|c: ChannelInfo| c.uuid);
    names.index_of_first_ensures(name);
    match channel_at(cs, name) {
        Some(i) => {
            assert forall|j: int| 0 <= j < i implies (#[trigger] cs[j]).uuid != name by {
                assert(names[j] == cs[j].uuid);
            }
        },
        None => {
            assert forall|j: int| 0 <= j < cs.len() implies (#[trigger] cs[j]).uuid != name by {
                assert(names[j] == cs[j].uuid);
            }
        },
    }
}

/// A chain that has come to its end stays there.
pub proof fn lemma_up_ended(gs: Seq<GroupInfo>, from: Option<Name>, n: nat, m: nat)
    requires
        n <= m,
        up(gs, from, n) is None,
    ensures
        up(gs, from, m) is None,
    decreases m,
{
    if n < m {
        lemma_up_ended(gs, from, n, (m - 1) as nat);
    }
}

/// Climbing `n` and then `m` steps is climbing `n + m` steps.
pub proof fn lemma_up_steps(gs: Seq<GroupInfo>, from: Option<Name>, n: nat, m: nat)
    ensures
        up(gs, up(gs, from, n), m) == up(gs, from, n + m),
    decreases m,
{
    if m > 0 {
        lemma_up_steps(gs, from, n, (m - 1) as nat);
    }
}

/// A chain of more groups than there are meets one of them twice.
proof fn lemma_up_repeats(gs: Seq<GroupInfo>, from: Option<Name>) -> (r: (nat, nat))
    requires
        up(gs, from, gs.len()) matches Some(a) && group_at(gs, a) is Some,
    ensures
        r.0 < r.1 <= gs.len(),
        up(gs, from, r.0) == up(gs, from, r.1),
{
    let n = gs.len();
    let met = Seq::new(n + 1, |t: int| group_at(gs, up(gs, from, t as nat)->0)->0);
    assert forall|t: nat| t <= n implies #[trigger] up(gs, from, t) is Some && group_at(
        gs,
        up(gs, from, t)->0,
    ) is Some by {
        if up(gs, from, t) is None {
            lemma_up_ended(gs, from, t, n);
        }
        if t < n && up(gs, from, t + 1) is None {
            lemma_up_ended(gs, from, t + 1, n);
        }
    }
    assert forall|t: int| 0 <= t <= n implies 0 <= #[trigger] met[t] < n && gs[met[t]].uuid == up(
        gs,
        from,
        t as nat,
    )->0 by {
        lemma_group_at(gs, up(gs, from, t as nat)->0);
    }
    if met.no_duplicates() {
        let places = vstd::set_lib::set_int_range(0, n as int);
        vstd::set_lib::lemma_int_range(0, n as int);
        met.unique_seq_to_set();
        assert(met.to_set().subset_of(places)) by {
            assert forall|p: int| met.to_set().contains(p) implies places.contains(p) by {
                let t = choose|t: int| 0 <= t < met.len() && met[t] == p;
            }
        }
        vstd::set_lib::lemma_len_subset(met.to_set(), places);
        assert(false);
    }
    let (i, j) = choose|i: int, j: int|
        0 <= i < met.len() && 0 <= j < met.len() && i != j && met[i] == met[j];
    assert(gs[met[i]].uuid == gs[met[j]].uuid);
    if i < j {
        (i as nat, j as nat)
    } else {
        (j as nat, i as nat)
    }
}

/// Every name on a chain is met within the first steps, one per group.
pub proof fn lemma_up_bounded(gs: Seq<GroupInfo>, from: Option<Name>, k: nat) -> (m: nat)
    requires
        up(gs, from, k) is Some,
    ensures
        m <= gs.len(),
        m <= k,
        up(gs, from, m) == up(gs, from, k),
    decreases k,
{
    if k <= gs.len() {
        k
    } else {
        if up(gs, from, gs.len() + 1) is None {
            lemma_up_ended(gs, from, gs.len() + 1, k);
        }
        let (i, j) = lemma_up_repeats(gs, from);
        let rest = (k - j) as nat;
        lemma_up_steps(gs, from, i, rest);
        lemma_up_steps(gs, from, j, rest);
        lemma_up_bounded(gs, from, i + rest)
    }
}

/// A group sits at one depth only, and that is less than the number of groups.
pub proof fn lemma_depth_unique(gs: Seq<GroupInfo>, name: Name, d: nat)
    requires
        sits_at(gs, name, d),
    ensures
        depth(gs, name) == Some(d),
        d < gs.len(),
        forall|e: nat| #[trigger] sits_at(gs, name, e) ==> e == d,
{
    let from = Some(name);
    assert forall|e: nat| #[trigger] sits_at(gs, name, e) implies e == d by {
        if e < d {
            lemma_up_ended(gs, from, e + 1, d);
        } else if d < e {
            lemma_up_ended(gs, from, d + 1, e);
        }
    }
    assert forall|a: nat, b: nat| a < b <= d implies up(gs, from, a) != up(gs, from, b) by {
        if up(gs, from, a) == up(gs, from, b) {
            let rest = (d - b) as nat;
            lemma_up_steps(gs, from, a, rest);
            lemma_up_steps(gs, from, b, rest);
            assert(sits_at(gs, name, a + rest));
        }
    }
    if d >= gs.len() {
        if up(gs, from, gs.len()) is None {
            lemma_up_ended(gs, from, gs.len(), d);
        }
        if d > gs.len() && up(gs, from, gs.len() + 1) is None {
            lemma_up_ended(gs, from, gs.len() + 1, d);
        }
        let (i, j) = lemma_up_repeats(gs, from);
    }
}

/// The topmost of the first `n` channels that lie inside a group.
pub open spec fn topmost_below(
    cs: Seq<ChannelInfo>,
    gs: Seq<GroupInfo>,
    name: Name,
    n: nat,
) -> Option<int>
    decreases n,
{
    if n == 0 {
        None
    } else if inside(gs, cs[n - 1], name) {
        Some(n - 1)
    } else {
        topmost_below(cs, gs, name, (n - 1) as nat)
    }
}

/// Where a group sits in the stack: the place of its topmost member, at any depth.
pub open spec fn stack_pos(cs: Seq<ChannelInfo>, gs: Seq<GroupInfo>, name: Name) -> Option<int> {
    topmost_below(cs, gs, name, cs.len())
}

/// Those of the first `n` channels that name the group as theirs, in stack order.
pub open spec fn members_below(cs: Seq<ChannelInfo>, name: Name, n: nat) -> Seq<int>
    decreases n,
{
    if n == 0 {
        Seq::empty()
    } else if cs[n - 1].group == Some(name) {
        members_below(cs, name, (n - 1) as nat).push(n - 1)
    } else {
        members_below(cs, name, (n - 1) as nat)
    }
}

/// The channels that name the group as theirs, in stack order.
pub open spec fn members(cs: Seq<ChannelInfo>, name: Name) -> Seq<int> {
    members_below(cs, name, cs.len())
}

/// One thing a group composites: a member layer, or a nested group's output.
pub enum Item {
    Channel(int),
    Group(Name),
}

/// Whether a group is nested directly inside another. One with a broken or cyclic chain
/// is top level.
pub open spec fn nested_in(gs: Seq<GroupInfo>, g: GroupInfo, name: Name) -> bool {
    g.parent == Some(name) && depth(gs, g.uuid) is Some
}

/// The member layers of a group, each with its place in the stack.
pub open spec fn member_entries(cs: Seq<ChannelInfo>, name: Name) -> Seq<(int, Item)> {
    members(cs, name).map_values(|i: int| (i, Item::Channel(i)))
}

/// Those of the first `n` groups that are nested directly inside a group and hold a
/// layer, each with its place in the stack.
pub open spec fn child_entries_below(
    cs: Seq<ChannelInfo>,
    gs: Seq<GroupInfo>,
    name: Name,
    n: nat,
) -> Seq<(int, Item)>
    decreases n,
{
    if n == 0 {
        Seq::empty()
    } else {
        let before = child_entries_below(cs, gs, name, (n - 1) as nat);
        let g = gs[n - 1];
        match stack_pos(cs, gs, g.uuid) {
            Some(pos) if nested_in(gs, g, name) => before.push((pos, Item::Group(g.uuid))),
            _ => before,
        }
    }
}

/// What a group composites, each with its place in the stack: its layers, then its
/// child groups.
pub open spec fn entries(
    cs: Seq<ChannelInfo>,
    gs: Seq<GroupInfo>,
    name: Name,
) -> Seq<(int, Item)> {
    member_entries(cs, name) + child_entries_below(cs, gs, name, gs.len())
}

/// The places of entries, as sort keys.
pub open spec fn entry_keys(es: Seq<(int, Item)>) -> Seq<u64> {
    es.map_values(|e: (int, Item)| e.0 as u64)
}

/// Entries ordered by their place, ties in their order.
pub open spec fn by_place(es: Seq<(int, Item)>) -> Seq<Item> {
    Seq::new(es.len(), |i: int| es[order::stable_order(entry_keys(es))[i]].1)
}

/// The direct children of a group, bottom of the stack first. A child group takes the
/// place of its own topmost layer.
pub open spec fn items(cs: Seq<ChannelInfo>, gs: Seq<GroupInfo>, name: Name) -> Seq<Item> {
    by_place(entries(cs, gs, name))
}

/// The depth that a group renders at; a broken or cyclic chain counts as top level.
pub open spec fn render_depth(gs: Seq<GroupInfo>, name: Name) -> nat {
    match depth(gs, name) {
        Some(d) => d,
        None => 0,
    }
}

/// Sort keys that put the deepest groups first.
pub open spec fn render_keys(gs: Seq<GroupInfo>) -> Seq<u64> {
    gs.map_values(|g: GroupInfo| (gs.len() - render_depth(gs, g.uuid)) as u64)
}

/// The places of the groups, deepest first, ties in their order.
pub open spec fn render_order(gs: Seq<GroupInfo>) -> Seq<int> {
    order::stable_order(render_keys(gs))
}

/// Which deck a group belongs to, if either.
pub open spec fn deck_index(
    gs: Seq<GroupInfo>,
    decks: Option<(Name, Name)>,
    name: Name,
) -> Option<int> {
    match decks {
        Some(d) => if d.0 == outermost(gs, name) {
            Some(0)
        } else if d.1 == outermost(gs, name) {
            Some(1)
        } else {
            None
        },
        None => None,
    }
}

/// The groups after the first one of that name was given a parent.
pub open spec fn reparented(
    gs: Seq<GroupInfo>,
    child: Name,
    parent: Option<Name>,
) -> Seq<GroupInfo> {
    match group_at(gs, child) {
        Some(i) => gs.update(i, (GroupInfo { parent, ..gs[i] })),
        None => gs,
    }
}

/// Whether a group may be nested there: both exist, and the child would not end up
/// inside itself.
pub open spec fn may_nest(gs: Seq<GroupInfo>, child: Name, parent: Option<Name>) -> bool {
    &&& group_at(gs, child) is Some
    &&& parent matches Some(p) ==> {
        &&& p != child
        &&& group_at(gs, p) is Some
        &&& forall|k: nat| #[trigger] up(gs, Some(p), k) != Some(child)
    }
}

/// Whether every group's chain reaches the top level.
pub open spec fn well_nested(gs: Seq<GroupInfo>) -> bool {
    forall|i: int| 0 <= i < gs.len() ==> depth(gs, (#[trigger] gs[i]).uuid) is Some
}

} // verus!
