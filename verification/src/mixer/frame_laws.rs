//! What holds of every frame.

use vstd::prelude::*;

use crate::mixer::nesting;
use crate::mixer::nesting::{ChannelInfo, GroupInfo, Item, Name};
use crate::mixer::nesting_laws;
use crate::mixer::scene::{Scene, Source, StepKind};
use crate::order;

verus! {

/// Whether every group has a name of its own.
pub open spec fn distinct_groups(gs: Seq<GroupInfo>) -> bool {
    forall|i: int, j: int| 0 <= i < j < gs.len() ==> gs[i].uuid != gs[j].uuid
}

/// A group with a name of its own is found at its place.
pub proof fn lemma_own_place(gs: Seq<GroupInfo>, i: int)
    requires
        distinct_groups(gs),
        0 <= i < gs.len(),
    ensures
        nesting::group_at(gs, gs[i].uuid) == Some(i),
{
    nesting::lemma_group_at(gs, gs[i].uuid);
    let p = nesting::group_at(gs, gs[i].uuid)->0;
    if p < i {
        assert(gs[p].uuid != gs[i].uuid);
    } else if i < p {
        assert(gs[i].uuid != gs[p].uuid);
    }
}

/// After `n` turns, the groups that had theirs hold an image if they compose, the others
/// hold none.
proof fn lemma_rendered_after(sc: Scene, n: nat, i: int)
    requires
        sc.gs.len() <= u64::MAX,
        distinct_groups(sc.gs),
        n <= sc.gs.len(),
        0 <= i < sc.gs.len(),
    ensures
        sc.rendered_after(n).len() == sc.gs.len(),
        sc.rendered_after(n)[i] == (nesting::render_order(sc.gs).take(n as int).contains(i)
            && sc.composes(sc.gs[i].uuid)),
    decreases n,
{
    let ord = nesting::render_order(sc.gs);
    order::law_stable_order(nesting::render_keys(sc.gs));
    if n > 0 {
        let m = (n - 1) as nat;
        lemma_rendered_after(sc, m, i);
        let p = ord[n - 1];
        lemma_own_place(sc.gs, p);
        let less = ord.take(m as int);
        let more = ord.take(n as int);
        assert(more =~= less.push(p));
        if less.contains(i) {
            let k = choose|k: int| 0 <= k < less.len() && less[k] == i;
            assert(more[k] == i);
            assert(ord[k] == i && ord[n - 1] == p);
            assert(p != i);
        }
        if p == i {
            assert(more[n - 1] == i);
        }
        if more.contains(i) && p != i {
            let k = choose|k: int| 0 <= k < more.len() && more[k] == i;
            assert(less[k] == i);
        }
    }
}

proof fn lemma_members_are_in(cs: Seq<ChannelInfo>, name: Name, n: nat)
    requires
        n <= cs.len(),
    ensures
        forall|k: int|
            0 <= k < nesting::members_below(cs, name, n).len() ==> 0 <= (
            #[trigger] nesting::members_below(cs, name, n)[k]) < n
                && cs[nesting::members_below(cs, name, n)[k]].group == Some(name),
        forall|j: int, k: int|
            0 <= j < k < nesting::members_below(cs, name, n).len() ==> (
            #[trigger] nesting::members_below(cs, name, n)[j]) < (
            #[trigger] nesting::members_below(cs, name, n)[k]),
    decreases n,
{
    if n > 0 {
        let m = (n - 1) as nat;
        let before = nesting::members_below(cs, name, m);
        let all = nesting::members_below(cs, name, n);
        lemma_members_are_in(cs, name, m);
        assert forall|k: int| 0 <= k < before.len() implies #[trigger] all[k] == before[k] by {}
        assert forall|j: int, k: int| 0 <= j < k < all.len() implies (#[trigger] all[j]) < (
        #[trigger] all[k]) by {
            assert(all[j] == before[j]);
            assert(before[j] < m);
            if k < before.len() {
                assert(all[k] == before[k]);
            }
        }
    }
}

/// Where a group that holds a layer sits: at the topmost one.
proof fn lemma_topmost(cs: Seq<ChannelInfo>, gs: Seq<GroupInfo>, name: Name, n: nat)
    requires
        n <= cs.len(),
    ensures
        nesting::topmost_below(cs, gs, name, n) matches Some(p) ==> {
            &&& 0 <= p < n
            &&& nesting::inside(gs, cs[p], name)
            &&& forall|i: int| p < i < n ==> !nesting::inside(gs, #[trigger] cs[i], name)
        },
        nesting::topmost_below(cs, gs, name, n) is None ==> forall|i: int|
            0 <= i < n ==> !nesting::inside(gs, #[trigger] cs[i], name),
    decreases n,
{
    if n > 0 {
        lemma_topmost(cs, gs, name, (n - 1) as nat);
    }
}

/// A group sits in the stack where the topmost layer inside it does, at any depth; one
/// without a layer sits nowhere.
pub proof fn law_group_sits_at_its_topmost_layer(
    cs: Seq<ChannelInfo>,
    gs: Seq<GroupInfo>,
    name: Name,
)
    ensures
        nesting::stack_pos(cs, gs, name) is Some <==> exists|i: int|
            0 <= i < cs.len() && nesting::inside(gs, #[trigger] cs[i], name),
        nesting::stack_pos(cs, gs, name) matches Some(p) ==> {
            &&& 0 <= p < cs.len()
            &&& nesting::inside(gs, cs[p], name)
            &&& forall|i: int| p < i < cs.len() ==> !nesting::inside(gs, #[trigger] cs[i], name)
        },
{
    lemma_topmost(cs, gs, name, cs.len());
    if nesting::stack_pos(cs, gs, name) is Some {
        let p = nesting::stack_pos(cs, gs, name)->0;
        assert(nesting::inside(gs, cs[p], name));
    }
}

proof fn lemma_children_are_in(cs: Seq<ChannelInfo>, gs: Seq<GroupInfo>, name: Name, n: nat)
    requires
        n <= gs.len(),
    ensures
        forall|k: int|
            0 <= k < nesting::child_entries_below(cs, gs, name, n).len() ==> child_entry(
                cs,
                gs,
                name,
                n,
                #[trigger] nesting::child_entries_below(cs, gs, name, n)[k],
            ),
    decreases n,
{
    if n > 0 {
        let m = (n - 1) as nat;
        let before = nesting::child_entries_below(cs, gs, name, m);
        let all = nesting::child_entries_below(cs, gs, name, n);
        lemma_children_are_in(cs, gs, name, m);
        assert forall|k: int| 0 <= k < all.len() implies child_entry(
            cs,
            gs,
            name,
            n,
            #[trigger] all[k],
        ) by {
            if k < before.len() {
                assert(all[k] == before[k]);
                assert(child_entry(cs, gs, name, m, before[k]));
                let g = choose|g: int|
                    0 <= g < m && nesting::nested_in(gs, #[trigger] gs[g], name)
                        && nesting::stack_pos(cs, gs, gs[g].uuid) == Some(all[k].0) && all[k].1
                        == Item::Group(gs[g].uuid);
                assert(nesting::nested_in(gs, gs[g], name));
            } else {
                assert(nesting::nested_in(gs, gs[n - 1], name));
            }
        }
    }
}

proof fn lemma_children_are_distinct(
    cs: Seq<ChannelInfo>,
    gs: Seq<GroupInfo>,
    name: Name,
    n: nat,
)
    requires
        n <= gs.len(),
        distinct_groups(gs),
    ensures
        forall|j: int, k: int|
            0 <= j < k < nesting::child_entries_below(cs, gs, name, n).len() ==> (
            #[trigger] nesting::child_entries_below(cs, gs, name, n)[j]).1 != (
            #[trigger] nesting::child_entries_below(cs, gs, name, n)[k]).1,
    decreases n,
{
    if n > 0 {
        let m = (n - 1) as nat;
        let before = nesting::child_entries_below(cs, gs, name, m);
        let all = nesting::child_entries_below(cs, gs, name, n);
        lemma_children_are_distinct(cs, gs, name, m);
        lemma_children_are_in(cs, gs, name, m);
        assert forall|j: int, k: int| 0 <= j < k < all.len() implies (#[trigger] all[j]).1 != (
        #[trigger] all[k]).1 by {
            assert(all[j] == before[j]);
            if k < before.len() {
                assert(all[k] == before[k]);
            } else {
                assert(child_entry(cs, gs, name, m, before[j]));
                let g = choose|g: int|
                    0 <= g < m && nesting::nested_in(gs, #[trigger] gs[g], name)
                        && nesting::stack_pos(cs, gs, gs[g].uuid) == Some(before[j].0)
                        && before[j].1 == Item::Group(gs[g].uuid);
                assert(gs[g].uuid != gs[n - 1].uuid);
                assert(all[k].1 == Item::Group(gs[n - 1].uuid));
            }
        }
    }
}

/// Nothing is composited twice into one group.
pub proof fn law_items_are_distinct(cs: Seq<ChannelInfo>, gs: Seq<GroupInfo>, name: Name)
    requires
        cs.len() <= u64::MAX,
        distinct_groups(gs),
    ensures
        nesting::items(cs, gs, name).no_duplicates(),
{
    let items = nesting::items(cs, gs, name);
    let es = nesting::entries(cs, gs, name);
    let own = nesting::member_entries(cs, name);
    let children = nesting::child_entries_below(cs, gs, name, gs.len());
    let keys = nesting::entry_keys(es);
    let ord = order::stable_order(keys);
    order::law_stable_order(keys);
    law_items_are_the_direct_children(cs, gs, name);
    lemma_children_are_distinct(cs, gs, name, gs.len());
    assert forall|j: int, k: int|
        0 <= j < items.len() && 0 <= k < items.len() && j != k implies items[j] != items[k] by {
        assert(items[j] == es[ord[j]].1 && items[k] == es[ord[k]].1);
        assert(ord[j] != ord[k]);
        if items[j] == items[k] && items[j] is Group {
            if ord[j] < own.len() {
                assert(es[ord[j]] == own[ord[j]]);
            }
            if ord[k] < own.len() {
                assert(es[ord[k]] == own[ord[k]]);
            }
            let a = ord[j] - own.len();
            let b = ord[k] - own.len();
            assert(es[ord[j]] == children[a] && es[ord[k]] == children[b]);
        }
    }
}

/// Whether an entry is that of one of the first `n` groups, nested directly inside.
spec fn child_entry(
    cs: Seq<ChannelInfo>,
    gs: Seq<GroupInfo>,
    name: Name,
    n: nat,
    e: (int, Item),
) -> bool {
    exists|g: int|
        0 <= g < n && nesting::nested_in(gs, #[trigger] gs[g], name) && nesting::stack_pos(
            cs,
            gs,
            gs[g].uuid,
        ) == Some(e.0) && e.1 == Item::Group(gs[g].uuid)
}

/// Where an item of a group sits in the stack: a layer at its own place, a nested group
/// at that of its topmost layer.
pub open spec fn place_of(cs: Seq<ChannelInfo>, gs: Seq<GroupInfo>, item: Item) -> int {
    match item {
        Item::Channel(i) => i,
        Item::Group(name) => nesting::stack_pos(cs, gs, name)->0,
    }
}

/// What a group composites is what lies directly inside it: the layers that name it as
/// theirs, each once, and the groups nested in it that hold a layer. They come in stack
/// order, the bottom first.
pub proof fn law_items_are_the_direct_children(
    cs: Seq<ChannelInfo>,
    gs: Seq<GroupInfo>,
    name: Name,
)
    requires
        cs.len() <= u64::MAX,
    ensures
        ({
            let items = nesting::items(cs, gs, name);
            &&& forall|k: int|
                0 <= k < items.len() ==> match #[trigger] items[k] {
                    Item::Channel(i) => 0 <= i < cs.len() && cs[i].group == Some(name),
                    Item::Group(inner) => nesting::stack_pos(cs, gs, inner) is Some && exists|
                        g: int,
                    |
                        0 <= g < gs.len() && (#[trigger] gs[g]).uuid == inner && gs[g].parent
                            == Some(name) && nesting::depth(gs, inner) is Some,
                }
            &&& forall|j: int, k: int|
                0 <= j < k < items.len() ==> place_of(cs, gs, #[trigger] items[j]) <= place_of(
                    cs,
                    gs,
                    #[trigger] items[k],
                )
            &&& forall|j: int, k: int|
                0 <= j < items.len() && 0 <= k < items.len() && (#[trigger] items[j]) is Channel
                    && items[j] == #[trigger] items[k] ==> j == k
        }),
{
    let items = nesting::items(cs, gs, name);
    let es = nesting::entries(cs, gs, name);
    let own = nesting::member_entries(cs, name);
    let places = nesting::members(cs, name);
    let children = nesting::child_entries_below(cs, gs, name, gs.len());
    let keys = nesting::entry_keys(es);
    let ord = order::stable_order(keys);
    order::law_stable_order(keys);
    lemma_members_are_in(cs, name, cs.len());
    lemma_children_are_in(cs, gs, name, gs.len());
    assert forall|e: int| 0 <= e < es.len() implies {
        &&& 0 <= (#[trigger] es[e]).0 < cs.len()
        &&& es[e].0 == place_of(cs, gs, es[e].1)
        &&& match es[e].1 {
            Item::Channel(i) => e < own.len() && places[e] == i && cs[i].group == Some(name),
            Item::Group(inner) => nesting::stack_pos(cs, gs, inner) is Some && exists|g: int|
                0 <= g < gs.len() && (#[trigger] gs[g]).uuid == inner && gs[g].parent == Some(name)
                    && nesting::depth(gs, inner) is Some,
        }
    } by {
        if e < own.len() {
            assert(es[e] == own[e]);
            assert(own[e] == (places[e], Item::Channel(places[e])));
        } else {
            assert(es[e] == children[e - own.len()]);
            assert(child_entry(cs, gs, name, gs.len(), children[e - own.len()]));
            let g = choose|g: int|
                0 <= g < gs.len() && nesting::nested_in(gs, #[trigger] gs[g], name)
                    && nesting::stack_pos(cs, gs, gs[g].uuid) == Some(es[e].0) && es[e].1
                    == Item::Group(gs[g].uuid);
            assert(gs[g].uuid == es[e].1->Group_0);
            law_group_sits_at_its_topmost_layer(cs, gs, gs[g].uuid);
        }
    }
    assert forall|k: int| 0 <= k < items.len() implies #[trigger] items[k] == es[ord[k]].1 && 0
        <= ord[k] < es.len() by {}
    assert forall|j: int, k: int| 0 <= j < k < items.len() implies place_of(
        cs,
        gs,
        #[trigger] items[j],
    ) <= place_of(cs, gs, #[trigger] items[k]) by {
        assert(keys[ord[j]] <= keys[ord[k]]);
        assert(keys[ord[j]] == es[ord[j]].0 as u64 && keys[ord[k]] == es[ord[k]].0 as u64);
    }
    assert forall|j: int, k: int|
        0 <= j < items.len() && 0 <= k < items.len() && (#[trigger] items[j]) is Channel && items[j]
            == #[trigger] items[k] implies j == k by {
        if ord[j] < ord[k] {
            assert(places[ord[j]] < places[ord[k]]);
        } else if ord[k] < ord[j] {
            assert(places[ord[k]] < places[ord[j]]);
        } else {
            assert(ord[j] == ord[k]);
        }
    }
}

/// A group is composited this frame when it passes every level above it and something
/// lies directly in it, or it is a deck: a layer of its own, or a nested group that holds
/// a layer at any depth.
pub proof fn law_composited_groups(sc: Scene, name: Name)
    requires
        sc.cs.len() <= u64::MAX,
    ensures
        sc.composes(name) <==> nesting::group_heard(sc.cs, sc.gs, name) && ({
            ||| exists|i: int| 0 <= i < sc.cs.len() && (#[trigger] sc.cs[i]).group == Some(name)
            ||| exists|g: int, i: int|
                0 <= g < sc.gs.len() && (#[trigger] sc.gs[g]).parent == Some(name)
                    && nesting::depth(sc.gs, sc.gs[g].uuid) is Some && 0 <= i < sc.cs.len()
                    && nesting::inside(sc.gs, #[trigger] sc.cs[i], sc.gs[g].uuid)
            ||| (sc.decks matches Some(d) && (name == d.0 || name == d.1))
        }),
{
    let items = nesting::items(sc.cs, sc.gs, name);
    law_items_are_the_direct_children(sc.cs, sc.gs, name);
    if items.len() > 0 {
        match items[0] {
            Item::Channel(i) => {
                assert(sc.cs[i].group == Some(name));
            },
            Item::Group(inner) => {
                let g = choose|g: int|
                    0 <= g < sc.gs.len() && (#[trigger] sc.gs[g]).uuid == inner
                        && sc.gs[g].parent == Some(name) && nesting::depth(sc.gs, inner) is Some;
                law_group_sits_at_its_topmost_layer(sc.cs, sc.gs, inner);
                let p = nesting::stack_pos(sc.cs, sc.gs, inner)->0;
                assert(nesting::inside(sc.gs, sc.cs[p], sc.gs[g].uuid));
            },
        }
    }
    if exists|i: int| 0 <= i < sc.cs.len() && (#[trigger] sc.cs[i]).group == Some(name) {
        let i = choose|i: int| 0 <= i < sc.cs.len() && (#[trigger] sc.cs[i]).group == Some(name);
        law_layer_is_in_its_group(sc.cs, sc.gs, i, name);
    }
    if exists|g: int, i: int|
        0 <= g < sc.gs.len() && (#[trigger] sc.gs[g]).parent == Some(name) && nesting::depth(
            sc.gs,
            sc.gs[g].uuid,
        ) is Some && 0 <= i < sc.cs.len() && nesting::inside(
            sc.gs,
            #[trigger] sc.cs[i],
            sc.gs[g].uuid,
        ) {
        let (g, i) = choose|g: int, i: int|
            0 <= g < sc.gs.len() && (#[trigger] sc.gs[g]).parent == Some(name) && nesting::depth(
                sc.gs,
                sc.gs[g].uuid,
            ) is Some && 0 <= i < sc.cs.len() && nesting::inside(
                sc.gs,
                #[trigger] sc.cs[i],
                sc.gs[g].uuid,
            );
        law_group_sits_at_its_topmost_layer(sc.cs, sc.gs, sc.gs[g].uuid);
        let pos = nesting::stack_pos(sc.cs, sc.gs, sc.gs[g].uuid)->0;
        lemma_child_entry(sc.cs, sc.gs, name, sc.gs.len(), g, pos);
        let es = nesting::entries(sc.cs, sc.gs, name);
        let children = nesting::child_entries_below(sc.cs, sc.gs, name, sc.gs.len());
        assert(children.len() > 0);
        assert(es.len() > 0);
        assert(items.len() == es.len());
    }
}

/// The decks are combined by the transition exactly where there are decks, a transition
/// is loaded, both decks hold an image and the fader is on neither; parked on one of
/// them, its image stands for both. Otherwise each deck is blended on its own.
pub proof fn law_decks_are_combined(sc: Scene)
    requires
        sc.gs.len() <= u64::MAX,
        distinct_groups(sc.gs),
    ensures
        ({
            let ready = sc.transition && (sc.decks matches Some(d) && exists|i: int, j: int|
                0 <= i < sc.gs.len() && 0 <= j < sc.gs.len() && (#[trigger] sc.gs[i]).uuid == d.0
                    && (#[trigger] sc.gs[j]).uuid == d.1 && sc.composes(d.0) && sc.composes(
                    d.1,
                ));
            &&& sc.deck_source() is Some <==> ready
            &&& sc.deck_source() == Some(Source::Transition) <==> ready && sc.parked is None
            &&& sc.decks matches Some(d) ==> forall|i: int|
                ready && sc.parked is Some && 0 <= i < sc.gs.len() && (#[trigger] sc.gs[i]).uuid
                    == (if sc.parked == Some(0int) {
                    d.0
                } else {
                    d.1
                }) ==> sc.deck_source() == Some(Source::Group(i as usize))
        }),
{
    if let Some(d) = sc.decks {
        nesting::lemma_group_at(sc.gs, d.0);
        nesting::lemma_group_at(sc.gs, d.1);
        assert forall|i: int| 0 <= i < sc.gs.len() implies nesting::group_at(
            sc.gs,
            (#[trigger] sc.gs[i]).uuid,
        ) == Some(i) && sc.rendered()[i] == sc.composes(sc.gs[i].uuid) by {
            lemma_own_place(sc.gs, i);
            law_rendered_groups(sc, i);
        }
    }
}

/// When the master is composited, exactly the groups that compose hold an image.
pub proof fn law_rendered_groups(sc: Scene, i: int)
    requires
        sc.gs.len() <= u64::MAX,
        distinct_groups(sc.gs),
        0 <= i < sc.gs.len(),
    ensures
        sc.rendered()[i] == sc.composes(sc.gs[i].uuid),
{
    let ord = nesting::render_order(sc.gs);
    order::law_stable_order(nesting::render_keys(sc.gs));
    lemma_rendered_after(sc, sc.gs.len(), i);
    assert(ord.contains(i));
    assert(ord.take(sc.gs.len() as int) =~= ord);
}

/// A nested group is finished before the group around it reads it: when the turn of the
/// outer one comes, the inner one holds this frame's image if it composes at all.
pub proof fn law_children_are_finished(sc: Scene, child: int, b: int)
    requires
        sc.gs.len() <= u64::MAX,
        distinct_groups(sc.gs),
        0 <= child < sc.gs.len(),
        0 <= b < sc.gs.len(),
        nesting::nested_in(
            sc.gs,
            sc.gs[child],
            sc.gs[nesting::render_order(sc.gs)[b]].uuid,
        ),
    ensures
        sc.rendered_after(b as nat)[child] == sc.composes(sc.gs[child].uuid),
{
    let gs = sc.gs;
    let ord = nesting::render_order(gs);
    order::law_stable_order(nesting::render_keys(gs));
    let parent = ord[b];
    assert(ord.contains(child));
    let a = choose|a: int| 0 <= a < ord.len() && ord[a] == child;
    lemma_own_place(gs, child);
    lemma_own_place(gs, parent);
    nesting_laws::law_child_renders_first(gs, child, parent, a, b);
    lemma_rendered_after(sc, b as nat, child);
    assert(ord.take(b)[a] == child);
}

proof fn lemma_anchor(sc: Scene, top: Name, n: nat)
    requires
        n <= sc.cs.len(),
    ensures
        sc.anchor_below(top, n) matches Some(a) ==> 0 <= a < n && sc.feeds(a, top) && forall|i:
            int| a < i < n ==> !#[trigger] sc.feeds(i, top),
        sc.anchor_below(top, n) is None ==> forall|i: int|
            0 <= i < n ==> !#[trigger] sc.feeds(i, top),
    decreases n,
{
    if n > 0 {
        lemma_anchor(sc, top, (n - 1) as nat);
    }
}

/// A top-level group that holds an image at a level that shows, and to which some layer
/// contributes at any depth, is blended into the master exactly once: at its topmost
/// contributing layer. Muting or fading out the layer on top of a group does not take the
/// group with it.
pub proof fn law_group_joins_once(sc: Scene, p: int, i: int)
    requires
        sc.gs.len() <= usize::MAX,
        sc.cs.len() <= usize::MAX,
        distinct_groups(sc.gs),
        0 <= p < sc.gs.len(),
        nesting::outermost(sc.gs, sc.gs[p].uuid) == sc.gs[p].uuid,
        sc.rendered()[p],
        sc.masters[p],
        sc.deck_anchor() is None || nesting::deck_index(sc.gs, sc.decks, sc.gs[p].uuid) is None,
        0 <= i < sc.cs.len(),
        sc.feeds(i, sc.gs[p].uuid),
    ensures
        sc.anchor(sc.gs[p].uuid) is Some,
        forall|j: int|
            0 <= j < sc.cs.len() ==> ((#[trigger] sc.master_source(j) == Some(
                (Source::Group(p as usize), StepKind::Group),
            )) <==> sc.anchor(sc.gs[p].uuid) == Some(j)),
{
    let top = sc.gs[p].uuid;
    lemma_own_place(sc.gs, p);
    lemma_anchor(sc, top, sc.cs.len());
    assert forall|j: int| 0 <= j < sc.cs.len() implies ((#[trigger] sc.master_source(j) == Some(
        (Source::Group(p as usize), StepKind::Group),
    )) <==> sc.anchor(top) == Some(j)) by {
        if sc.master_source(j) == Some((Source::Group(p as usize), StepKind::Group)) {
            let g = sc.cs[j].group->0;
            let other = nesting::outermost(sc.gs, g);
            nesting::lemma_group_at(sc.gs, other);
            let q = nesting::group_at(sc.gs, other)->0;
            assert(q == p);
        }
        if sc.anchor(top) == Some(j) {
            assert(sc.feeds(j, top));
        }
    }
}

/// Where the two decks are combined, their image is blended exactly once, at the higher of
/// their two anchors, and neither deck is blended on its own.
pub proof fn law_decks_join_once(sc: Scene, i: int)
    requires
        sc.deck_anchor() is Some,
        0 <= i < sc.cs.len(),
    ensures
        (sc.master_source(i) matches Some((_, kind)) && kind == StepKind::Decks) <==> (
        sc.deck_anchor() == Some(i) && sc.both),
        (sc.cs[i].group matches Some(g) && nesting::deck_index(sc.gs, sc.decks, g) is Some) ==> (
        sc.master_source(i) matches Some((source, kind)) ==> kind == StepKind::Decks
            && sc.deck_source() == Some(source)),
{
    let d = sc.decks->0;
    lemma_anchor(sc, d.0, sc.cs.len());
    lemma_anchor(sc, d.1, sc.cs.len());
    if let Some(g) = sc.cs[i].group {
        nesting_laws::law_outermost_is_top(sc.gs, g);
    }
    let a = sc.deck_anchor()->0;
    assert(sc.feeds(a, d.0) || sc.feeds(a, d.1));
}

/// Whether channel `j` is the topmost one that contributes to a top-level group.
pub open spec fn topmost_in(sc: Scene, top: Name, j: int) -> bool {
    &&& 0 <= j < sc.cs.len()
    &&& sc.layers[j]
    &&& sc.cs[j].group matches Some(g) && nesting::outermost(sc.gs, g) == top
    &&& forall|k: int|
        j < k < sc.cs.len() && #[trigger] sc.layers[k] ==> !(sc.cs[k].group matches Some(g)
            && nesting::outermost(sc.gs, g) == top)
}

proof fn lemma_anchor_is_topmost(sc: Scene, top: Name)
    ensures
        forall|j: int| #[trigger] topmost_in(sc, top, j) <==> sc.anchor(top) == Some(j),
{
    lemma_anchor(sc, top, sc.cs.len());
    assert forall|j: int| #[trigger] topmost_in(sc, top, j) <==> sc.anchor(top) == Some(j) by {
        if topmost_in(sc, top, j) {
            assert(sc.feeds(j, top));
            let a = sc.anchor(top)->0;
            assert(sc.feeds(a, top));
            assert(sc.layers[a]);
        }
        if sc.anchor(top) == Some(j) {
            assert forall|k: int| j < k < sc.cs.len() && #[trigger] sc.layers[k] implies !(
            sc.cs[k].group matches Some(g) && nesting::outermost(sc.gs, g) == top) by {
                assert(!sc.feeds(k, top));
            }
        }
    }
}

/// A layer outside all groups is blended into the master at its own place, with its own
/// settings, and no layer inside a group is blended there by itself.
pub proof fn law_ungrouped_layer_joins_the_master(sc: Scene, i: int)
    requires
        sc.cs.len() <= usize::MAX,
        0 <= i < sc.cs.len(),
    ensures
        sc.layers[i] && sc.cs[i].group is None <==> (sc.master_source(i) matches Some((source, _))
            && source is Channel),
        sc.layers[i] && sc.cs[i].group is None ==> sc.master_source(i) == Some(
            (Source::Channel(i as usize), StepKind::Layer),
        ),
{
}

/// A top-level group that is not combined with another deck is blended into the master,
/// as a group, exactly at the topmost layer that contributes to it, and only if it is
/// composited and its level counts.
pub proof fn law_group_joins_at_its_topmost_layer(sc: Scene, p: int, j: int)
    requires
        sc.gs.len() <= usize::MAX,
        sc.cs.len() <= usize::MAX,
        distinct_groups(sc.gs),
        0 <= p < sc.gs.len(),
        nesting::outermost(sc.gs, sc.gs[p].uuid) == sc.gs[p].uuid,
        sc.deck_source() is None || (sc.decks matches Some(d) && d.0 != sc.gs[p].uuid && d.1
            != sc.gs[p].uuid),
        0 <= j < sc.cs.len(),
    ensures
        sc.master_source(j) == Some((Source::Group(p as usize), StepKind::Group)) <==> topmost_in(
            sc,
            sc.gs[p].uuid,
            j,
        ) && sc.composes(sc.gs[p].uuid) && sc.masters[p],
{
    let top = sc.gs[p].uuid;
    lemma_own_place(sc.gs, p);
    law_rendered_groups(sc, p);
    lemma_anchor_is_topmost(sc, top);
    assert(topmost_in(sc, top, j) <==> sc.anchor(top) == Some(j));
    if sc.master_source(j) == Some((Source::Group(p as usize), StepKind::Group)) {
        let g = sc.cs[j].group->0;
        let other = nesting::outermost(sc.gs, g);
        nesting::lemma_group_at(sc.gs, other);
        assert(nesting::group_at(sc.gs, other)->0 == p);
    }
}

/// Whether channel `j` contributes to one of the decks.
pub open spec fn in_a_deck(sc: Scene, d: (Name, Name), j: int) -> bool {
    &&& 0 <= j < sc.cs.len()
    &&& sc.layers[j]
    &&& sc.cs[j].group matches Some(g) && (nesting::outermost(sc.gs, g) == d.0
        || nesting::outermost(sc.gs, g) == d.1)
}

/// The combined decks join the master at the topmost layer that contributes to either.
pub proof fn law_deck_anchor_is_topmost(sc: Scene, d: (Name, Name))
    requires
        sc.decks == Some(d),
        sc.deck_source() is Some,
    ensures
        sc.deck_anchor() is None ==> forall|j: int| !#[trigger] in_a_deck(sc, d, j),
        sc.deck_anchor() matches Some(a) ==> in_a_deck(sc, d, a) && forall|j: int|
            #[trigger] in_a_deck(sc, d, j) ==> j <= a,
{
    lemma_anchor(sc, d.0, sc.cs.len());
    lemma_anchor(sc, d.1, sc.cs.len());
    assert forall|j: int| #[trigger] in_a_deck(sc, d, j) implies sc.feeds(j, d.0) || sc.feeds(
        j,
        d.1,
    ) by {}
}

/// Where the decks are combined, their image is blended into the master, as decks, exactly
/// at the topmost layer that contributes to either, and only if their common level counts.
/// No layer of a deck brings anything else.
pub proof fn law_decks_join_at_their_topmost_layer(sc: Scene, d: (Name, Name), j: int)
    requires
        sc.decks == Some(d),
        sc.deck_source() is Some,
        0 <= j < sc.cs.len(),
    ensures
        ({
            let first = topmost_in(sc, d.0, j) && forall|k: int|
                j < k < sc.cs.len() ==> !#[trigger] topmost_in(sc, d.1, k);
            let second = topmost_in(sc, d.1, j) && forall|k: int|
                j < k < sc.cs.len() ==> !#[trigger] topmost_in(sc, d.0, k);
            &&& sc.both && (first || second) <==> (sc.master_source(j) matches Some((_, kind))
                && kind == StepKind::Decks)
            &&& sc.both && (first || second) ==> sc.master_source(j) == Some(
                (sc.deck_source()->0, StepKind::Decks),
            )
        }),
        sc.master_source(j) matches Some((_, kind)) ==> kind == StepKind::Decks || !(
        sc.cs[j].group matches Some(g) && (nesting::outermost(sc.gs, g) == d.0
            || nesting::outermost(sc.gs, g) == d.1)),
{
    lemma_anchor(sc, d.0, sc.cs.len());
    lemma_anchor(sc, d.1, sc.cs.len());
    lemma_anchor_is_topmost(sc, d.0);
    lemma_anchor_is_topmost(sc, d.1);
    if let Some(g) = sc.cs[j].group {
        nesting_laws::law_outermost_is_top(sc.gs, g);
        if sc.layers[j] {
            assert(sc.feeds(j, nesting::outermost(sc.gs, g)));
        }
    }
    if let Some(a) = sc.anchor(d.0) {
        assert(topmost_in(sc, d.0, a));
    }
    if let Some(b) = sc.anchor(d.1) {
        assert(topmost_in(sc, d.1, b));
    }
    assert(topmost_in(sc, d.0, j) <==> sc.anchor(d.0) == Some(j));
    assert(topmost_in(sc, d.1, j) <==> sc.anchor(d.1) == Some(j));
}

proof fn lemma_member_entry(cs: Seq<ChannelInfo>, name: Name, n: nat, i: int)
    requires
        n <= cs.len(),
        0 <= i < n,
        cs[i].group == Some(name),
    ensures
        nesting::members_below(cs, name, n).contains(i),
    decreases n,
{
    let all = nesting::members_below(cs, name, n);
    let m = (n - 1) as nat;
    let before = nesting::members_below(cs, name, m);
    if i == n - 1 {
        assert(all[all.len() - 1] == i);
    } else {
        lemma_member_entry(cs, name, m, i);
        let k = choose|k: int| 0 <= k < before.len() && before[k] == i;
        assert(all[k] == i);
    }
}

proof fn lemma_child_entry(
    cs: Seq<ChannelInfo>,
    gs: Seq<GroupInfo>,
    name: Name,
    n: nat,
    p: int,
    pos: int,
)
    requires
        n <= gs.len(),
        0 <= p < n,
        nesting::nested_in(gs, gs[p], name),
        nesting::stack_pos(cs, gs, gs[p].uuid) == Some(pos),
    ensures
        nesting::child_entries_below(cs, gs, name, n).contains((pos, Item::Group(gs[p].uuid))),
    decreases n,
{
    let all = nesting::child_entries_below(cs, gs, name, n);
    let m = (n - 1) as nat;
    let before = nesting::child_entries_below(cs, gs, name, m);
    let entry = (pos, Item::Group(gs[p].uuid));
    if p == n - 1 {
        assert(all[all.len() - 1] == entry);
    } else {
        lemma_child_entry(cs, gs, name, m, p, pos);
        let k = choose|k: int| 0 <= k < before.len() && before[k] == entry;
        assert(all[k] == entry);
    }
}

proof fn lemma_sorted_keeps(es: Seq<(int, Item)>, e: (int, Item))
    requires
        es.contains(e),
    ensures
        nesting::by_place(es).contains(e.1),
{
    let keys = nesting::entry_keys(es);
    let ord = order::stable_order(keys);
    order::law_stable_order(keys);
    let k = choose|k: int| 0 <= k < es.len() && es[k] == e;
    assert(ord.contains(k));
    let i = choose|i: int| 0 <= i < ord.len() && ord[i] == k;
    assert(nesting::by_place(es)[i] == e.1);
}

/// A layer is among what its group composites.
pub proof fn law_layer_is_in_its_group(
    cs: Seq<ChannelInfo>,
    gs: Seq<GroupInfo>,
    i: int,
    name: Name,
)
    requires
        0 <= i < cs.len(),
        cs[i].group == Some(name),
    ensures
        nesting::items(cs, gs, name).contains(Item::Channel(i)),
{
    let es = nesting::entries(cs, gs, name);
    let own = nesting::member_entries(cs, name);
    lemma_member_entry(cs, name, cs.len(), i);
    let k = choose|k: int|
        0 <= k < nesting::members(cs, name).len() && nesting::members(cs, name)[k] == i;
    assert(own[k] == (i, Item::Channel(i)));
    assert(es[k] == (i, Item::Channel(i)));
    lemma_sorted_keeps(es, (i, Item::Channel(i)));
}

/// A group nested directly in another that holds a layer is among what that composites.
pub proof fn lemma_nested_item(cs: Seq<ChannelInfo>, gs: Seq<GroupInfo>, outer: Name, p: int)
    requires
        0 <= p < gs.len(),
        nesting::nested_in(gs, gs[p], outer),
        nesting::stack_pos(cs, gs, gs[p].uuid) is Some,
    ensures
        nesting::items(cs, gs, outer).contains(Item::Group(gs[p].uuid)),
{
    let pos = nesting::stack_pos(cs, gs, gs[p].uuid)->0;
    lemma_child_entry(cs, gs, outer, gs.len(), p, pos);
    let es = nesting::entries(cs, gs, outer);
    let children = nesting::child_entries_below(cs, gs, outer, gs.len());
    let own = nesting::member_entries(cs, outer);
    let entry = (pos, Item::Group(gs[p].uuid));
    let k = choose|k: int| 0 <= k < children.len() && children[k] == entry;
    assert(es[own.len() + k] == entry);
    lemma_sorted_keeps(es, entry);
}

/// No group with a layer in it is dropped: it is top level and joins the master, or it is
/// among what the group around it composites. A broken or cyclic chain costs the nesting,
/// not the layers.
pub proof fn law_group_is_composited_somewhere(
    cs: Seq<ChannelInfo>,
    gs: Seq<GroupInfo>,
    p: int,
    i: int,
)
    requires
        distinct_groups(gs),
        0 <= p < gs.len(),
        0 <= i < cs.len(),
        nesting::inside(gs, cs[i], gs[p].uuid),
    ensures
        nesting::outermost(gs, gs[p].uuid) == gs[p].uuid || (gs[p].parent matches Some(outer)
            && nesting::group_at(gs, outer) is Some && nesting::items(cs, gs, outer).contains(
            Item::Group(gs[p].uuid),
        )),
{
    let name = gs[p].uuid;
    lemma_own_place(gs, p);
    if let Some(d) = nesting::depth(gs, name) {
        nesting_laws::law_child_is_deeper(gs, name, d);
        if d == 0 {
            assert(nesting::up(gs, Some(name), 0) == Some(name));
        } else {
            let outer = gs[p].parent->0;
            lemma_holds_layer(cs, gs, name, cs.len(), i);
            lemma_nested_item(cs, gs, outer, p);
        }
    }
}

proof fn lemma_holds_layer(
    cs: Seq<ChannelInfo>,
    gs: Seq<GroupInfo>,
    name: Name,
    n: nat,
    i: int,
)
    requires
        n <= cs.len(),
        0 <= i < n,
        nesting::inside(gs, cs[i], name),
    ensures
        nesting::topmost_below(cs, gs, name, n) is Some,
    decreases n,
{
    if !nesting::inside(gs, cs[n - 1], name) {
        lemma_holds_layer(cs, gs, name, (n - 1) as nat, i);
    }
}

} // verus!
