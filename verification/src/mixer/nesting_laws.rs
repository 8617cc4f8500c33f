//! What holds of every nesting of groups.

use vstd::prelude::*;

use crate::mixer::nesting;
use crate::mixer::nesting::{ChannelInfo, GroupInfo, Name};
use crate::order;

verus! {

/// A nested group sits one level deeper than the group around it, which exists.
pub proof fn law_child_is_deeper(gs: Seq<GroupInfo>, name: Name, d: nat)
    requires
        nesting::depth(gs, name) == Some(d),
    ensures
        match nesting::parent_of(gs, name) {
            Some(p) => d > 0 && nesting::depth(gs, p) == Some((d - 1) as nat)
                && nesting::group_at(gs, p) is Some,
            None => d == 0 && nesting::group_at(gs, name) is Some,
        },
{
    assert(nesting::sits_at(gs, name, d));
    if d == 0 {
        assert(nesting::up(gs, Some(name), 0) == Some(name));
    } else {
        let next = nesting::up(gs, Some(name), 1);
        assert(nesting::up(gs, Some(name), 0) == Some(name));
        assert(next == nesting::parent_of(gs, name));
        if next is None {
            nesting::lemma_up_ended(gs, Some(name), 1, d);
        }
        let p = next->0;
        nesting::lemma_up_steps(gs, Some(name), 1, (d - 1) as nat);
        assert(nesting::sits_at(gs, p, (d - 1) as nat));
        nesting::lemma_depth_unique(gs, p, (d - 1) as nat);
        if nesting::group_at(gs, p) is None {
            if d == 1 {
                assert(nesting::up(gs, Some(name), 1) == Some(p));
            } else {
                assert(nesting::up(gs, Some(name), 2) is None);
                nesting::lemma_up_ended(gs, Some(name), 2, d);
            }
        }
    }
}

/// A group is drawn after every group that is nested directly inside it.
pub proof fn law_child_renders_first(gs: Seq<GroupInfo>, child: int, parent: int, a: int, b: int)
    requires
        gs.len() <= u64::MAX,
        0 <= child < gs.len(),
        0 <= parent < gs.len(),
        nesting::group_at(gs, gs[child].uuid) == Some(child),
        nesting::group_at(gs, gs[parent].uuid) == Some(parent),
        nesting::nested_in(gs, gs[child], gs[parent].uuid),
        0 <= a < gs.len(),
        0 <= b < gs.len(),
        nesting::render_order(gs)[a] == child,
        nesting::render_order(gs)[b] == parent,
    ensures
        a < b,
{
    let keys = nesting::render_keys(gs);
    let d = nesting::depth(gs, gs[child].uuid)->0;
    law_child_is_deeper(gs, gs[child].uuid, d);
    nesting::lemma_depth_unique(gs, gs[child].uuid, d);
    order::law_stable_order(keys);
    assert(keys[child] == (gs.len() - d) as u64);
    assert(keys[parent] == (gs.len() - (d - 1)) as u64);
    if b < a {
        let first = order::stable_order(keys)[b];
        let second = order::stable_order(keys)[a];
        assert(keys[first] <= keys[second]);
    }
}

/// The outermost group around a group is at top level and has none around it.
pub proof fn law_outermost_is_top(gs: Seq<GroupInfo>, name: Name)
    ensures
        nesting::outermost(gs, nesting::outermost(gs, name)) == nesting::outermost(gs, name),
        nesting::depth(gs, name) is Some ==> nesting::depth(gs, nesting::outermost(gs, name))
            == Some(0nat),
{
    if let Some(d) = nesting::depth(gs, name) {
        assert(nesting::sits_at(gs, name, d));
        let top = nesting::up(gs, Some(name), d)->0;
        assert(nesting::up(gs, Some(top), 0) == Some(top));
        assert(nesting::sits_at(gs, top, 0));
        nesting::lemma_depth_unique(gs, top, 0);
    }
}

/// A chain that does not meet `child` is the same after `child` was given a parent.
proof fn lemma_same_chain(
    gs: Seq<GroupInfo>,
    child: Name,
    parent: Option<Name>,
    from: Option<Name>,
    n: nat,
)
    requires
        nesting::group_at(gs, child) is Some,
        forall|k: nat| k < n ==> #[trigger] nesting::up(gs, from, k) != Some(child),
    ensures
        nesting::up(nesting::reparented(gs, child, parent), from, n) == nesting::up(gs, from, n),
    decreases n,
{
    if n > 0 {
        let m = (n - 1) as nat;
        lemma_same_chain(gs, child, parent, from, m);
        assert(nesting::up(gs, from, m) != Some(child));
        if let Some(a) = nesting::up(gs, from, m) {
            lemma_same_place(gs, child, parent, a);
        }
    }
}

/// Giving a group a parent moves no group and changes no other group's parent.
proof fn lemma_same_place(gs: Seq<GroupInfo>, child: Name, parent: Option<Name>, name: Name)
    requires
        nesting::group_at(gs, child) is Some,
    ensures
        nesting::group_at(nesting::reparented(gs, child, parent), name) == nesting::group_at(
            gs,
            name,
        ),
        name != child ==> nesting::parent_of(nesting::reparented(gs, child, parent), name)
            == nesting::parent_of(gs, name),
        nesting::parent_of(nesting::reparented(gs, child, parent), child) == parent,
{
    let after = nesting::reparented(gs, child, parent);
    nesting::lemma_group_at(gs, child);
    nesting::lemma_group_at(gs, name);
    assert(after.map_values(|g: GroupInfo| g.uuid) =~= gs.map_values(|g: GroupInfo| g.uuid));
}

/// A group never ends up inside itself: after an accepted change, the chain above the
/// group does not meet it.
pub proof fn law_no_group_inside_itself(gs: Seq<GroupInfo>, child: Name, parent: Option<Name>)
    requires
        nesting::may_nest(gs, child, parent),
    ensures
        forall|k: nat| #[trigger]
            nesting::up(nesting::reparented(gs, child, parent), parent, k) != Some(child),
{
    assert forall|k: nat| #[trigger]
        nesting::up(nesting::reparented(gs, child, parent), parent, k) != Some(child) by {
        match parent {
            Some(p) => {
                lemma_same_chain(gs, child, parent, parent, k);
            },
            None => {
                let after = nesting::reparented(gs, child, parent);
                nesting::lemma_up_ended(after, parent, 0, k);
            },
        }
    }
}

/// An accepted change keeps every chain whole: if all groups reach the top level before
/// it, all do after it.
pub proof fn law_nesting_stays_whole(gs: Seq<GroupInfo>, child: Name, parent: Option<Name>)
    requires
        nesting::well_nested(gs),
        nesting::may_nest(gs, child, parent),
    ensures
        nesting::well_nested(nesting::reparented(gs, child, parent)),
{
    let after = nesting::reparented(gs, child, parent);
    nesting::lemma_group_at(gs, child);
    lemma_same_place(gs, child, parent, child);
    let child_depth: nat = match parent {
        Some(p) => {
            nesting::lemma_group_at(gs, p);
            let i = nesting::group_at(gs, p)->0;
            assert(nesting::depth(gs, gs[i].uuid) is Some);
            let d = nesting::depth(gs, p)->0;
            assert(nesting::sits_at(gs, p, d));
            lemma_same_chain(gs, child, parent, parent, d);
            let top = nesting::up(gs, Some(p), d)->0;
            assert(nesting::up(gs, Some(p), d) != Some(child));
            lemma_same_place(gs, child, parent, top);
            assert(nesting::sits_at(after, p, d));
            d + 1
        },
        None => 0,
    };
    assert(nesting::sits_at(after, child, child_depth)) by {
        assert(nesting::up(after, Some(child), 0) == Some(child));
        if parent is Some {
            assert(nesting::up(after, Some(child), 1) == parent);
            nesting::lemma_up_steps(after, Some(child), 1, (child_depth - 1) as nat);
        }
    }
    assert forall|i: int| 0 <= i < after.len() implies nesting::depth(
        after,
        (#[trigger] after[i]).uuid,
    ) is Some by {
        let name = gs[i].uuid;
        assert(after[i].uuid == name);
        assert(nesting::depth(gs, name) is Some);
        let d = nesting::depth(gs, name)->0;
        assert(nesting::sits_at(gs, name, d));
        lemma_whole(gs, child, parent, name, d, child_depth);
    }
}

proof fn lemma_whole(
    gs: Seq<GroupInfo>,
    child: Name,
    parent: Option<Name>,
    name: Name,
    d: nat,
    child_depth: nat,
)
    requires
        nesting::group_at(gs, child) is Some,
        nesting::sits_at(gs, name, d),
        nesting::sits_at(nesting::reparented(gs, child, parent), child, child_depth),
    ensures
        nesting::depth(nesting::reparented(gs, child, parent), name) is Some,
{
    let after = nesting::reparented(gs, child, parent);
    if exists|j: nat| j <= d && nesting::up(gs, Some(name), j) == Some(child) {
        let j = lemma_first(gs, name, child, d);
        lemma_same_chain(gs, child, parent, Some(name), j);
        nesting::lemma_up_steps(after, Some(name), j, child_depth);
        assert(nesting::sits_at(after, name, j + child_depth));
    } else {
        lemma_same_chain(gs, child, parent, Some(name), d);
        let top = nesting::up(gs, Some(name), d)->0;
        lemma_same_place(gs, child, parent, top);
        assert(nesting::sits_at(after, name, d));
    }
}

/// The first place where a chain meets a name.
proof fn lemma_first(gs: Seq<GroupInfo>, from: Name, name: Name, d: nat) -> (j: nat)
    requires
        exists|j: nat| j <= d && nesting::up(gs, Some(from), j) == Some(name),
    ensures
        j <= d,
        nesting::up(gs, Some(from), j) == Some(name),
        forall|k: nat| k < j ==> #[trigger] nesting::up(gs, Some(from), k) != Some(name),
    decreases d,
{
    if d > 0 && exists|j: nat| j <= d - 1 && nesting::up(gs, Some(from), j) == Some(name) {
        lemma_first(gs, from, name, (d - 1) as nat)
    } else {
        d
    }
}

/// The same channels, with another solo flag on one of them.
pub open spec fn with_solo(cs: Seq<ChannelInfo>, i: int, solo: bool) -> Seq<ChannelInfo> {
    cs.update(i, (ChannelInfo { solo, ..cs[i] }))
}

/// A solo scopes to siblings: turning it on or off for a layer of one group changes
/// nothing for a layer outside that group.
pub proof fn law_solo_stays_inside(
    cs: Seq<ChannelInfo>,
    gs: Seq<GroupInfo>,
    i: int,
    solo: bool,
    j: int,
    group: Name,
)
    requires
        0 <= i < cs.len(),
        0 <= j < cs.len(),
        cs[i].group == Some(group),
        !nesting::inside(gs, cs[j], group),
    ensures
        nesting::channel_heard(with_solo(cs, i, solo), gs, with_solo(cs, i, solo)[j])
            == nesting::channel_heard(cs, gs, cs[j]),
{
    let after = with_solo(cs, i, solo);
    let c = cs[j];
    assert(nesting::up(gs, c.group, 0) == c.group);
    assert(after[j] == c);
    assert forall|scope: Option<Name>| scope != Some(group) implies #[trigger] nesting::solo_in(
        after,
        gs,
        scope,
    ) == nesting::solo_in(cs, gs, scope) by {
        if nesting::solo_in(cs, gs, scope) {
            if exists|k: int| 0 <= k < cs.len() && (#[trigger] cs[k]).group == scope && cs[k].solo {
                let k = choose|k: int|
                    0 <= k < cs.len() && (#[trigger] cs[k]).group == scope && cs[k].solo;
                assert(after[k] == cs[k]);
            }
        }
        if nesting::solo_in(after, gs, scope) {
            if exists|k: int|
                0 <= k < after.len() && (#[trigger] after[k]).group == scope && after[k].solo {
                let k = choose|k: int|
                    0 <= k < after.len() && (#[trigger] after[k]).group == scope && after[k].solo;
                assert(cs[k] == after[k]);
            }
        }
    }
    if let Some(g) = c.group {
        assert forall|k: nat| #[trigger] nesting::open_at(after, gs, g, k) == nesting::open_at(
            cs,
            gs,
            g,
            k,
        ) by {
            if let Some(a) = nesting::up(gs, Some(g), k) {
                if let Some(p) = nesting::group_at(gs, a) {
                    nesting::lemma_group_at(gs, a);
                    assert(nesting::up(gs, c.group, k + 1) == gs[p].parent);
                }
            }
        }
        if nesting::group_heard(cs, gs, g) {
            assert forall|k: nat| #[trigger] nesting::open_at(after, gs, g, k) by {
                assert(nesting::open_at(cs, gs, g, k));
            }
        }
        if nesting::group_heard(after, gs, g) {
            assert forall|k: nat| #[trigger] nesting::open_at(cs, gs, g, k) by {
                assert(nesting::open_at(after, gs, g, k));
            }
        }
    }
}

/// The same groups, with another solo flag on one of them.
pub open spec fn with_group_solo(gs: Seq<GroupInfo>, i: int, solo: bool) -> Seq<GroupInfo> {
    gs.update(i, (GroupInfo { solo, ..gs[i] }))
}

/// A solo flag changes no chain.
proof fn lemma_solo_keeps_chains(
    gs: Seq<GroupInfo>,
    i: int,
    solo: bool,
    from: Option<Name>,
    n: nat,
)
    requires
        0 <= i < gs.len(),
    ensures
        nesting::up(with_group_solo(gs, i, solo), from, n) == nesting::up(gs, from, n),
    decreases n,
{
    if n > 0 {
        let after = with_group_solo(gs, i, solo);
        lemma_solo_keeps_chains(gs, i, solo, from, (n - 1) as nat);
        assert(after.map_values(|g: GroupInfo| g.uuid) =~= gs.map_values(|g: GroupInfo| g.uuid));
        if let Some(name) = nesting::up(gs, from, (n - 1) as nat) {
            nesting::lemma_group_at(gs, name);
        }
    }
}

/// A group's solo scopes to siblings as well: turning it on or off for a group that is
/// nested in another changes nothing for a layer outside that other group.
pub proof fn law_group_solo_stays_inside(
    cs: Seq<ChannelInfo>,
    gs: Seq<GroupInfo>,
    i: int,
    solo: bool,
    j: int,
    group: Name,
)
    requires
        0 <= i < gs.len(),
        0 <= j < cs.len(),
        gs[i].parent == Some(group),
        !nesting::inside(gs, cs[j], group),
    ensures
        nesting::channel_heard(cs, with_group_solo(gs, i, solo), cs[j]) == nesting::channel_heard(
            cs,
            gs,
            cs[j],
        ),
{
    let after = with_group_solo(gs, i, solo);
    let c = cs[j];
    assert(after.map_values(|g: GroupInfo| g.uuid) =~= gs.map_values(|g: GroupInfo| g.uuid));
    assert(nesting::up(gs, c.group, 0) == c.group);
    assert forall|scope: Option<Name>| scope != Some(group) implies #[trigger] nesting::solo_in(
        cs,
        after,
        scope,
    ) == nesting::solo_in(cs, gs, scope) by {
        if exists|k: int| 0 <= k < gs.len() && (#[trigger] gs[k]).parent == scope && gs[k].solo {
            let k = choose|k: int|
                0 <= k < gs.len() && (#[trigger] gs[k]).parent == scope && gs[k].solo;
            assert(after[k] == gs[k]);
        }
        if exists|k: int|
            0 <= k < after.len() && (#[trigger] after[k]).parent == scope && after[k].solo {
            let k = choose|k: int|
                0 <= k < after.len() && (#[trigger] after[k]).parent == scope && after[k].solo;
            assert(gs[k] == after[k]);
        }
    }
    if let Some(g) = c.group {
        assert forall|k: nat| #[trigger] nesting::open_at(cs, after, g, k) == nesting::open_at(
            cs,
            gs,
            g,
            k,
        ) by {
            lemma_solo_keeps_chains(gs, i, solo, Some(g), k);
            if let Some(a) = nesting::up(gs, Some(g), k) {
                if let Some(p) = nesting::group_at(gs, a) {
                    nesting::lemma_group_at(gs, a);
                    assert(nesting::up(gs, c.group, k + 1) == gs[p].parent);
                    assert(gs[p].parent != Some(group));
                    assert(after[p] == gs[p]);
                }
            }
        }
        if nesting::group_heard(cs, gs, g) {
            assert forall|k: nat| #[trigger] nesting::open_at(cs, after, g, k) by {
                assert(nesting::open_at(cs, gs, g, k));
            }
        }
        if nesting::group_heard(cs, after, g) {
            assert forall|k: nat| #[trigger] nesting::open_at(cs, gs, g, k) by {
                assert(nesting::open_at(cs, after, g, k));
            }
        }
    }
}

/// A muted group silences every layer inside it, at any depth.
pub proof fn law_mute_reaches_inside(
    cs: Seq<ChannelInfo>,
    gs: Seq<GroupInfo>,
    c: ChannelInfo,
    p: int,
)
    requires
        0 <= p < gs.len(),
        nesting::group_at(gs, gs[p].uuid) == Some(p),
        gs[p].mute,
        nesting::inside(gs, c, gs[p].uuid),
    ensures
        !nesting::channel_heard(cs, gs, c),
{
    let k = choose|k: nat| #[trigger] nesting::up(gs, c.group, k) == Some(gs[p].uuid);
    if c.group is None {
        nesting::lemma_up_ended(gs, c.group, 0, k);
    } else {
        assert(!nesting::open_at(cs, gs, c.group->0, k));
    }
}

/// The solo of a top-level group silences every layer that no group holds and that is not
/// soloed itself, and every layer of another top-level group that is not soloed.
pub proof fn law_top_solo_silences_the_rest(
    cs: Seq<ChannelInfo>,
    gs: Seq<GroupInfo>,
    p: int,
    c: ChannelInfo,
)
    requires
        0 <= p < gs.len(),
        gs[p].parent is None,
        gs[p].solo,
        match c.group {
            None => !c.solo,
            Some(g) => nesting::group_at(gs, nesting::outermost(gs, g)) matches Some(q)
                && gs[q].parent is None && !gs[q].solo,
        },
    ensures
        !nesting::channel_heard(cs, gs, c),
{
    assert(nesting::solo_in(cs, gs, None));
    if let Some(g) = c.group {
        match nesting::depth(gs, g) {
            Some(d) => {
                assert(nesting::sits_at(gs, g, d));
                assert(!nesting::open_at(cs, gs, g, d));
            },
            None => {
                assert(nesting::up(gs, Some(g), 0) == Some(g));
                assert(!nesting::open_at(cs, gs, g, 0));
            },
        }
    }
}

/// A soloed group plays, and its members with it: the solo is on the group, and silencing
/// what it contains would leave it soloing nothing.
pub proof fn law_soloed_group_plays(
    cs: Seq<ChannelInfo>,
    gs: Seq<GroupInfo>,
    p: int,
    c: ChannelInfo,
)
    requires
        0 <= p < gs.len(),
        nesting::group_at(gs, gs[p].uuid) == Some(p),
        gs[p].parent is None,
        gs[p].solo && !gs[p].mute,
        c.group == Some(gs[p].uuid),
        c.active && !c.mute,
        nesting::solo_in(cs, gs, c.group) ==> c.solo,
    ensures
        nesting::channel_heard(cs, gs, c),
{
    let name = gs[p].uuid;
    assert forall|k: nat| #[trigger] nesting::open_at(cs, gs, name, k) by {
        assert(nesting::up(gs, Some(name), 0) == Some(name));
        assert(nesting::up(gs, Some(name), 1) is None);
        if k > 0 {
            nesting::lemma_up_ended(gs, Some(name), 1, k);
        }
    }
}

/// A group is heard when it is not muted, no sibling's solo silences it, and the group
/// around it is heard too.
pub proof fn law_group_is_heard(cs: Seq<ChannelInfo>, gs: Seq<GroupInfo>, name: Name, p: int)
    requires
        nesting::group_at(gs, name) == Some(p),
    ensures
        nesting::group_heard(cs, gs, name) <==> ({
            &&& !gs[p].mute
            &&& gs[p].solo || !(exists|i: int|
                0 <= i < cs.len() && (#[trigger] cs[i]).group == gs[p].parent && cs[i].solo)
            &&& gs[p].solo || !(exists|i: int|
                0 <= i < gs.len() && (#[trigger] gs[i]).parent == gs[p].parent && gs[i].solo)
            &&& gs[p].parent matches Some(outer) ==> nesting::group_heard(cs, gs, outer)
        }),
{
    assert(nesting::up(gs, Some(name), 0) == Some(name));
    assert(nesting::up(gs, Some(name), 1) == gs[p].parent) by {
        assert(nesting::parent_of(gs, name) == gs[p].parent);
        reveal_with_fuel(nesting::up, 2);
    }
    if nesting::group_heard(cs, gs, name) {
        assert(nesting::open_at(cs, gs, name, 0));
        if let Some(outer) = gs[p].parent {
            assert forall|k: nat| #[trigger] nesting::open_at(cs, gs, outer, k) by {
                nesting::lemma_up_steps(gs, Some(name), 1, k);
                assert(nesting::open_at(cs, gs, name, 1 + k));
            }
        }
    }
    if nesting::level_open(cs, gs, gs[p]) && (gs[p].parent matches Some(outer)
        ==> nesting::group_heard(cs, gs, outer)) {
        assert forall|k: nat| #[trigger] nesting::open_at(cs, gs, name, k) by {
            if k > 0 {
                nesting::lemma_up_steps(gs, Some(name), 1, (k - 1) as nat);
                if let Some(outer) = gs[p].parent {
                    assert(nesting::open_at(cs, gs, outer, (k - 1) as nat));
                } else {
                    nesting::lemma_up_ended(gs, Some(name), 1, k);
                }
            }
        }
    }
}

/// A name without a group silences nothing: the layers under a broken chain are heard.
pub proof fn law_missing_group_is_open(cs: Seq<ChannelInfo>, gs: Seq<GroupInfo>, name: Name)
    requires
        forall|i: int| 0 <= i < gs.len() ==> (#[trigger] gs[i]).uuid != name,
    ensures
        nesting::group_heard(cs, gs, name),
{
    nesting::lemma_group_at(gs, name);
    assert(nesting::up(gs, Some(name), 1) is None) by {
        reveal_with_fuel(nesting::up, 2);
    }
    assert forall|k: nat| #[trigger] nesting::open_at(cs, gs, name, k) by {
        if k > 0 {
            nesting::lemma_up_ended(gs, Some(name), 1, k);
        }
    }
}

/// A channel plays when it is active and not muted, is soloed or has no sibling that is,
/// and its group, if it has one, is heard.
pub proof fn law_channel_is_heard(cs: Seq<ChannelInfo>, gs: Seq<GroupInfo>, c: ChannelInfo)
    ensures
        nesting::channel_heard(cs, gs, c) <==> ({
            &&& c.active && !c.mute
            &&& c.solo || !(exists|i: int|
                0 <= i < cs.len() && (#[trigger] cs[i]).group == c.group && cs[i].solo)
            &&& c.solo || !(exists|i: int|
                0 <= i < gs.len() && (#[trigger] gs[i]).parent == c.group && gs[i].solo)
            &&& c.group matches Some(g) ==> nesting::group_heard(cs, gs, g)
        }),
{
}

/// A channel lies inside its own group, inside the group around that, and so on up; and
/// inside nothing else.
pub proof fn law_inside_reaches_up(gs: Seq<GroupInfo>, c: ChannelInfo, g: Name, name: Name)
    requires
        c.group == Some(g),
    ensures
        nesting::inside(gs, c, name) <==> g == name || nesting::inside(
            gs,
            ChannelInfo { group: nesting::parent_of(gs, g), ..c },
            name,
        ),
{
    let above = ChannelInfo { group: nesting::parent_of(gs, g), ..c };
    assert(nesting::up(gs, c.group, 0) == Some(g));
    assert(nesting::up(gs, c.group, 1) == above.group) by {
        reveal_with_fuel(nesting::up, 2);
    }
    if nesting::inside(gs, c, name) {
        let k = choose|k: nat| #[trigger] nesting::up(gs, c.group, k) == Some(name);
        if k > 0 {
            nesting::lemma_up_steps(gs, c.group, 1, (k - 1) as nat);
            assert(nesting::up(gs, above.group, (k - 1) as nat) == Some(name));
        }
    }
    if nesting::inside(gs, above, name) {
        let k = choose|k: nat| #[trigger] nesting::up(gs, above.group, k) == Some(name);
        nesting::lemma_up_steps(gs, c.group, 1, k);
        assert(nesting::up(gs, c.group, 1 + k) == Some(name));
    }
}

/// A channel without a group lies inside none.
pub proof fn law_ungrouped_is_inside_nothing(gs: Seq<GroupInfo>, c: ChannelInfo, name: Name)
    requires
        c.group is None,
    ensures
        !nesting::inside(gs, c, name),
{
    assert forall|k: nat| #[trigger] nesting::up(gs, c.group, k) != Some(name) by {
        nesting::lemma_up_ended(gs, c.group, 0, k);
    }
}

/// Going out from a group ends where going out from the group around it ends; a group
/// without one around it is its own outermost.
pub proof fn law_outermost_goes_up(gs: Seq<GroupInfo>, name: Name, p: int)
    requires
        nesting::group_at(gs, name) == Some(p),
    ensures
        gs[p].parent is None ==> nesting::outermost(gs, name) == name,
        gs[p].parent matches Some(outer) ==> (nesting::depth(gs, outer) is Some
            ==> nesting::outermost(gs, name) == nesting::outermost(gs, outer)),
        gs[p].parent matches Some(outer) ==> (nesting::depth(gs, outer) is None
            ==> nesting::outermost(gs, name) == name),
{
    let from = Some(name);
    assert(nesting::up(gs, from, 0) == Some(name));
    assert(nesting::up(gs, from, 1) == gs[p].parent) by {
        reveal_with_fuel(nesting::up, 2);
    }
    match gs[p].parent {
        None => {
            assert(nesting::sits_at(gs, name, 0));
            nesting::lemma_depth_unique(gs, name, 0);
        },
        Some(outer) => {
            if let Some(d) = nesting::depth(gs, outer) {
                assert(nesting::sits_at(gs, outer, d));
                nesting::lemma_up_steps(gs, from, 1, d);
                assert(nesting::sits_at(gs, name, 1 + d));
                nesting::lemma_depth_unique(gs, name, 1 + d);
            } else if let Some(d) = nesting::depth(gs, name) {
                assert(nesting::sits_at(gs, name, d));
                if d == 0 {
                    assert(nesting::parent_of(gs, name) is Some);
                } else {
                    nesting::lemma_up_steps(gs, from, 1, (d - 1) as nat);
                    assert(nesting::sits_at(gs, outer, (d - 1) as nat));
                }
            }
        },
    }
}

/// A group belongs to the deck that its outermost group is, the first one if that is both.
pub proof fn law_deck_of_a_group(gs: Seq<GroupInfo>, d: (Name, Name), name: Name)
    ensures
        nesting::deck_index(gs, None, name) is None,
        nesting::deck_index(gs, Some(d), name) == Some(0int) <==> nesting::outermost(gs, name)
            == d.0,
        nesting::deck_index(gs, Some(d), name) == Some(1int) <==> nesting::outermost(gs, name)
            == d.1 && d.0 != d.1,
        nesting::deck_index(gs, Some(d), name) is None <==> nesting::outermost(gs, name) != d.0
            && nesting::outermost(gs, name) != d.1,
{
}

/// Giving a group a parent changes nothing but that: every other group, and everything
/// else of this one, stays.
pub proof fn law_reparenting_changes_one_parent(
    gs: Seq<GroupInfo>,
    child: Name,
    parent: Option<Name>,
    i: int,
)
    requires
        0 <= i < gs.len(),
    ensures
        ({
            let after = nesting::reparented(gs, child, parent);
            let first = gs[i].uuid == child && forall|j: int|
                0 <= j < i ==> (#[trigger] gs[j]).uuid != child;
            &&& after.len() == gs.len()
            &&& first ==> after[i] == (GroupInfo { parent, ..gs[i] })
            &&& !first ==> after[i] == gs[i]
        }),
{
    nesting::lemma_group_at(gs, child);
}

/// A group may be put at top level if it exists, and into another one if that exists too,
/// is not the group itself and does not lie inside it.
pub proof fn law_allowed_nestings(
    gs: Seq<GroupInfo>,
    child: Name,
    parent: Option<Name>,
    c: ChannelInfo,
)
    requires
        c.group == parent,
    ensures
        nesting::may_nest(gs, child, parent) <==> ({
            &&& exists|i: int| 0 <= i < gs.len() && (#[trigger] gs[i]).uuid == child
            &&& parent matches Some(p) ==> exists|i: int|
                0 <= i < gs.len() && (#[trigger] gs[i]).uuid == p
            &&& !nesting::inside(gs, c, child)
        }),
{
    nesting::lemma_group_at(gs, child);
    if let Some(p) = parent {
        nesting::lemma_group_at(gs, p);
        assert(nesting::up(gs, parent, 0) == Some(p));
        if nesting::may_nest(gs, child, parent) {
            let i = nesting::group_at(gs, p)->0;
            assert(gs[i].uuid == p);
        }
    } else {
        law_ungrouped_is_inside_nothing(gs, c, child);
    }
    if nesting::may_nest(gs, child, parent) {
        let i = nesting::group_at(gs, child)->0;
        assert(gs[i].uuid == child);
    }
}

} // verus!
