//! The plan of one frame: which channels render, which groups composite and from what,
//! and which blends make the master image.

use vstd::prelude::*;

use crate::mixer::layers;
use crate::mixer::layers::GroupItem;
use crate::mixer::nesting;
use crate::mixer::scene;
use crate::mixer::scene::{BlendStep, Scene, Source, StepKind};
use crate::mixer::types;
use crate::mixer::types::Mixer;
use crate::order;

verus! {

/// What the host reads off its levels before a frame: which of them are not negligible,
/// and where the crossfader is parked.
pub struct Shown {
    /// Whether each channel contributes: its effective opacity is not negligible and it
    /// has an output.
    pub layers: Vec<bool>,
    /// Whether each group's level is not negligible inside its parent.
    pub nested: Vec<bool>,
    /// Whether each group's level, dimmed by the master, is not negligible.
    pub masters: Vec<bool>,
    /// Whether the decks' common level is not negligible.
    pub both: bool,
    /// The deck that the crossfader is parked on, if either.
    pub parked: Option<usize>,
}

/// What happens to one group.
pub enum GroupPass {
    /// Its textures are given back.
    Release { group: usize },
    /// Its accumulator A is cleared, the steps are blended, its chain runs over the
    /// result and the outcome is kept as the group's image.
    Composite { group: usize, steps: Vec<BlendStep> },
}

impl GroupPass {
    /// Whether this is the pass that a scene calls for when the group's turn comes after
    /// `n` others.
    pub open spec fn is_pass(&self, sc: Scene, place: int, n: nat) -> bool {
        let name = sc.gs[place].uuid;
        match self {
            GroupPass::Release { group } => *group == nesting::group_at(sc.gs, name)->0
                && !sc.composes(name),
            GroupPass::Composite { group, steps } => *group == nesting::group_at(sc.gs, name)->0
                && sc.composes(name) && steps@ == sc.group_steps(name, n),
        }
    }
}

/// The passes of one frame, in the order in which they are drawn.
pub struct FramePlan {
    /// One pass per group, deepest first.
    pub groups: Vec<GroupPass>,
    /// Which groups hold this frame's image afterwards.
    pub rendered: Vec<bool>,
    /// What stands for the two decks in the master, if they are combined.
    pub decks: Option<Source>,
    /// The master's blends, after its accumulator A was cleared.
    pub master: Vec<BlendStep>,
}

/// Whether the image lies in accumulator A after the blends: the accumulators take turns,
/// and A is cleared first.
pub fn ends_in_a(steps: &Vec<BlendStep>) -> (a: bool)
    ensures
        a == (steps@.len() % 2 == 0),
{
    steps.len() % 2 == 0
}

impl<E, M> Mixer<E, M> {
    /// What the passes of a frame are decided from.
    pub open spec fn scene(&self, shown: Shown) -> Scene {
        Scene {
            cs: self.channel_infos(),
            gs: self.group_infos(),
            decks: layers::deck_names(self.decks),
            transition: self.transition is Some,
            layers: shown.layers@,
            nested: shown.nested@,
            masters: shown.masters@,
            both: shown.both,
            parked: match shown.parked {
                Some(p) => Some(p as int),
                None => None,
            },
        }
    }

    /// Whether the host's readings cover every channel and every group.
    pub open spec fn covers(&self, shown: Shown) -> bool {
        &&& shown.layers@.len() == self.channels@.len()
        &&& shown.nested@.len() == self.groups@.len()
        &&& shown.masters@.len() == self.groups@.len()
    }

    /// Whether a name is that of a deck.
    fn is_deck_name(&self, name: &String) -> (r: bool)
        ensures
            r == scene::is_deck(layers::deck_names(self.decks), name@),
    {
        match &self.decks {
            None => false,
            Some(decks) => decks[0] == *name || decks[1] == *name,
        }
    }

    /// The blends of a group's items.
    fn blend_items(
        &self,
        shown: &Shown,
        rendered: &Vec<bool>,
        items: &Vec<GroupItem>,
    ) -> (steps: Vec<BlendStep>)
        requires
            self.covers(*shown),
            rendered@.len() == self.groups@.len(),
            forall|i: int|
                0 <= i < items@.len() ==> (#[trigger] items@[i] matches GroupItem::Channel(c) ==> c
                    < self.channels@.len()),
        ensures
            steps@ == self.scene(*shown).item_steps(
                rendered@,
                layers::item_views(items@),
                items@.len(),
            ),
    {
        let ghost sc = self.scene(*shown);
        let ghost views = layers::item_views(items@);
        let mut steps: Vec<BlendStep> = Vec::new();
        let mut n: usize = 0;
        while n < items.len()
            invariant
                n <= items.len(),
                self.covers(*shown),
                rendered@.len() == self.groups@.len(),
                forall|i: int|
                    0 <= i < items@.len() ==> (#[trigger] items@[i] matches GroupItem::Channel(c)
                        ==> c < self.channels@.len()),
                sc == self.scene(*shown),
                views == layers::item_views(items@),
                steps@ == sc.item_steps(rendered@, views, n as nat),
            decreases items.len() - n,
        {
            assert(views[n as int] == items@[n as int]@);
            let source: Option<Source> = match &items[n] {
                GroupItem::Channel(i) => if shown.layers[*i] {
                    Some(Source::Channel(*i))
                } else {
                    None
                },
                GroupItem::Group(name) => match self.find_group(name) {
                    Some(g) => if rendered[g] && shown.nested[g] {
                        Some(Source::Group(g))
                    } else {
                        None
                    },
                    None => None,
                },
            };
            assert(source == sc.item_source(rendered@, views[n as int]));
            if let Some(source) = source {
                let kind = match source {
                    Source::Channel(_) => StepKind::Layer,
                    _ => StepKind::Group,
                };
                let dest_is_a = steps.len() % 2 == 0;
                steps.push(BlendStep { slot: n, source, kind, dest_is_a });
            }
            n = n + 1;
        }
        steps
    }

    /// The groups' passes, deepest first, and which groups hold an image after them.
    fn plan_groups(&self, shown: &Shown) -> (r: (Vec<GroupPass>, Vec<bool>))
        requires
            self.covers(*shown),
        ensures
            r.0@.len() == self.groups@.len(),
            forall|n: int|
                0 <= n < r.0@.len() ==> (#[trigger] r.0@[n]).is_pass(
                    self.scene(*shown),
                    nesting::render_order(self.group_infos())[n],
                    n as nat,
                ),
            r.1@ == self.scene(*shown).rendered(),
            r.1@.len() == self.groups@.len(),
    {
        let ghost sc = self.scene(*shown);
        let places = self.render_places();
        let mut passes: Vec<GroupPass> = Vec::new();
        let mut rendered: Vec<bool> = Vec::new();
        let mut i: usize = 0;
        while i < self.groups.len()
            invariant
                i <= self.groups.len(),
                rendered@.len() == i,
                forall|j: int| 0 <= j < i ==> !#[trigger] rendered@[j],
            decreases self.groups.len() - i,
        {
            rendered.push(false);
            i = i + 1;
        }
        assert(rendered@ =~= sc.rendered_after(0));
        let mut n: usize = 0;
        while n < places.len()
            invariant
                n <= places.len(),
                self.covers(*shown),
                sc == self.scene(*shown),
                places@.len() == self.groups@.len(),
                forall|i: int|
                    0 <= i < places@.len() ==> #[trigger] places@[i] == nesting::render_order(
                        self.group_infos(),
                    )[i] && places@[i] < self.groups@.len(),
                rendered@ == sc.rendered_after(n as nat),
                rendered@.len() == self.groups@.len(),
                passes@.len() == n,
                forall|j: int|
                    0 <= j < n ==> (#[trigger] passes@[j]).is_pass(
                        sc,
                        nesting::render_order(self.group_infos())[j],
                        j as nat,
                    ),
            decreases places.len() - n,
        {
            let uuid = &self.groups[places[n]].uuid;
            let ghost place = places@[n as int] as int;
            assert(sc.gs[place] == self.groups@[place].info());
            proof {
                nesting::lemma_group_at(sc.gs, uuid@);
            }
            if let Some(g) = self.find_group(uuid) {
                let items = self.group_items(uuid.as_str());
                assert(layers::item_views(items@).len() == items@.len());
                let composes = self.group_audible(uuid.as_str()) && (items.len() > 0
                    || self.is_deck_name(uuid));
                assert(composes == sc.composes(uuid@));
                if composes {
                    let steps = self.blend_items(shown, &rendered, &items);
                    passes.push(GroupPass::Composite { group: g, steps });
                } else {
                    passes.push(GroupPass::Release { group: g });
                }
                rendered.set(g, composes);
            }
            n = n + 1;
        }
        (passes, rendered)
    }

    /// Whether the group of that name holds this frame's image, and where it is.
    fn find_image(&self, shown: &Shown, rendered: &Vec<bool>, name: &String) -> (r: Option<usize>)
        requires
            rendered@ == self.scene(*shown).rendered(),
            rendered@.len() == self.groups@.len(),
        ensures
            r is Some <==> self.scene(*shown).has_image(name@),
            r matches Some(g) ==> nesting::group_at(self.group_infos(), name@) == Some(g as int),
    {
        match self.find_group(name) {
            Some(g) => if rendered[g] {
                Some(g)
            } else {
                None
            },
            None => None,
        }
    }

    /// Combines the two decks into one image: what the master blends in their place.
    ///
    /// `None` means that there is nothing to special-case and the decks composite as
    /// ordinary groups: no decks configured, no transition loaded, or one of them did not
    /// render. At the ends of the fader the transition pass is skipped and the winning
    /// deck is handed back directly.
    fn render_transition(&self, shown: &Shown, rendered: &Vec<bool>) -> (r: Option<Source>)
        requires
            rendered@ == self.scene(*shown).rendered(),
            rendered@.len() == self.groups@.len(),
        ensures
            r == self.scene(*shown).deck_source(),
    {
        let ghost sc = self.scene(*shown);
        match &self.decks {
            None => None,
            Some(decks) => {
                if self.transition.is_none() {
                    return None;
                }
                let a = self.find_image(shown, rendered, &decks[0]);
                let b = self.find_image(shown, rendered, &decks[1]);
                match (a, b) {
                    (Some(a), Some(b)) => match shown.parked {
                        Some(which) => Some(
                            Source::Group(
                                if which == 0 {
                                    a
                                } else {
                                    b
                                },
                            ),
                        ),
                        None => Some(Source::Transition),
                    },
                    _ => None,
                }
            },
        }
    }

    /// Where a top-level group joins the master: the topmost channel that contributes to
    /// it, at any depth.
    ///
    /// Anchoring on the topmost member outright would drop the whole group when its top
    /// layer is muted or faded out.
    fn find_anchor(&self, shown: &Shown, top: &String) -> (r: Option<usize>)
        requires
            self.covers(*shown),
        ensures
            match (r, self.scene(*shown).anchor(top@)) {
                (Some(i), Some(p)) => i == p && i < self.channels@.len(),
                (None, None) => true,
                _ => false,
            },
    {
        let ghost sc = self.scene(*shown);
        let mut n: usize = self.channels.len();
        while n > 0
            invariant
                n <= self.channels.len(),
                self.covers(*shown),
                sc == self.scene(*shown),
                sc.anchor(top@) == sc.anchor_below(top@, n as nat),
            decreases n,
        {
            let i: usize = n - 1;
            assert(sc.cs[i as int] == self.channels@[i as int].info());
            if shown.layers[i] {
                if let Some(g) = &self.channels[i].group {
                    if self.top_level_ancestor(g.as_str()) == *top {
                        return Some(i);
                    }
                }
            }
            n = i;
        }
        None
    }

    /// Where the decks join the master as one image.
    fn find_deck_anchor(&self, shown: &Shown, deck: Option<Source>) -> (r: Option<usize>)
        requires
            self.covers(*shown),
            deck == self.scene(*shown).deck_source(),
        ensures
            match (r, self.scene(*shown).deck_anchor()) {
                (Some(i), Some(p)) => i == p,
                (None, None) => true,
                _ => false,
            },
    {
        if deck.is_none() {
            return None;
        }
        match &self.decks {
            None => None,
            Some(decks) => {
                let a = self.find_anchor(shown, &decks[0]);
                let b = self.find_anchor(shown, &decks[1]);
                match (a, b) {
                    (Some(a), Some(b)) => Some(
                        if a >= b {
                            a
                        } else {
                            b
                        },
                    ),
                    (Some(a), None) => Some(a),
                    (None, b) => b,
                }
            },
        }
    }

    /// What the master blends at channel `i`, and with whose settings.
    ///
    /// A grouped member is not blended on its own: its group already composited it, and
    /// only the outermost group reaches the master. Both decks resolve to one image,
    /// blended once.
    fn plan_master_at(
        &self,
        shown: &Shown,
        rendered: &Vec<bool>,
        deck: Option<Source>,
        deck_anchor: Option<usize>,
        i: usize,
    ) -> (r: Option<(Source, StepKind)>)
        requires
            self.covers(*shown),
            i < self.channels@.len(),
            rendered@ == self.scene(*shown).rendered(),
            rendered@.len() == self.groups@.len(),
            deck == self.scene(*shown).deck_source(),
            match (deck_anchor, self.scene(*shown).deck_anchor()) {
                (Some(i), Some(p)) => i == p,
                (None, None) => true,
                _ => false,
            },
        ensures
            r == self.scene(*shown).master_source(i as int),
    {
        let ghost sc = self.scene(*shown);
        assert(sc.cs[i as int] == self.channels@[i as int].info());
        if !shown.layers[i] {
            return None;
        }
        match &self.channels[i].group {
            None => Some((Source::Channel(i), StepKind::Layer)),
            Some(g) => {
                let top = self.top_level_ancestor(g.as_str());
                if let Some(anchor) = deck_anchor {
                    if self.deck_of(top.as_str()).is_some() {
                        return match deck {
                            Some(source) => if anchor == i && shown.both {
                                Some((source, StepKind::Decks))
                            } else {
                                None
                            },
                            None => None,
                        };
                    }
                }
                match self.find_group(&top) {
                    None => None,
                    Some(p) => match self.find_anchor(shown, &top) {
                        None => None,
                        Some(anchor) => if anchor == i && rendered[p] && shown.masters[p] {
                            Some((Source::Group(p), StepKind::Group))
                        } else {
                            None
                        },
                    },
                }
            },
        }
    }

    /// Decides all passes of one frame.
    pub fn plan_frame(&self, shown: &Shown) -> (plan: FramePlan)
        requires
            self.covers(*shown),
        ensures
            plan.groups@.len() == self.groups@.len(),
            forall|n: int|
                0 <= n < plan.groups@.len() ==> (#[trigger] plan.groups@[n]).is_pass(
                    self.scene(*shown),
                    nesting::render_order(self.group_infos())[n],
                    n as nat,
                ),
            plan.rendered@ == self.scene(*shown).rendered(),
            plan.rendered@.len() == self.groups@.len(),
            plan.decks == self.scene(*shown).deck_source(),
            plan.master@ == self.scene(*shown).master_steps(self.channels@.len()),
    {
        let ghost sc = self.scene(*shown);
        let (groups, rendered) = self.plan_groups(shown);
        let decks = self.render_transition(shown, &rendered);
        let deck_anchor = self.find_deck_anchor(shown, decks);
        let mut master: Vec<BlendStep> = Vec::new();
        let mut n: usize = 0;
        while n < self.channels.len()
            invariant
                n <= self.channels.len(),
                self.covers(*shown),
                sc == self.scene(*shown),
                rendered@ == sc.rendered(),
                rendered@.len() == self.groups@.len(),
                decks == sc.deck_source(),
                match (deck_anchor, sc.deck_anchor()) {
                    (Some(i), Some(p)) => i == p,
                    (None, None) => true,
                    _ => false,
                },
                master@ == sc.master_steps(n as nat),
            decreases self.channels.len() - n,
        {
            if let Some((source, kind)) = self.plan_master_at(
                shown,
                &rendered,
                decks,
                deck_anchor,
                n,
            ) {
                let dest_is_a = master.len() % 2 == 0;
                master.push(BlendStep { slot: n, source, kind, dest_is_a });
            }
            n = n + 1;
        }
        FramePlan { groups, rendered, decks, master }
    }
}

} // verus!
