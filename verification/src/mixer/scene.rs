//! What one frame is drawn from, and which blends draw it.

use vstd::prelude::*;

use crate::mixer::nesting;
use crate::mixer::nesting::{ChannelInfo, GroupInfo, Item, Name};

verus! {

/// What a blend samples.
#[derive(Debug, Clone, Copy, PartialEq, Eq, Structural)]
pub enum Source {
    /// A channel's output, by index.
    Channel(usize),
    /// A group's finished image, by index.
    Group(usize),
    /// The two decks, combined by the transition effect.
    Transition,
}

/// Whose level, blend mode and key a blend is made with.
#[derive(Debug, Clone, Copy, PartialEq, Eq, Structural)]
pub enum StepKind {
    /// A channel's own, with its own key.
    Layer,
    /// A group's own, without a key.
    Group,
    /// Both decks' levels, crossfaded with the image, blended normally without a key.
    Decks,
}

/// One blend into an accumulator.
#[derive(Debug, Clone, Copy, PartialEq, Eq, Structural)]
pub struct BlendStep {
    /// The uniform slot that the step's settings are written to.
    pub slot: usize,
    pub source: Source,
    pub kind: StepKind,
    /// Whether accumulator A is the backdrop and B is written, or the other way round.
    pub dest_is_a: bool,
}

/// What the passes of one frame are decided from.
pub struct Scene {
    pub cs: Seq<ChannelInfo>,
    pub gs: Seq<GroupInfo>,
    pub decks: Option<(Name, Name)>,
    /// Whether a transition effect is loaded.
    pub transition: bool,
    /// Whether each channel contributes this frame: its opacity is not negligible and it
    /// has an output.
    pub layers: Seq<bool>,
    /// Whether each group's level is not negligible inside its parent.
    pub nested: Seq<bool>,
    /// Whether each group's level is not negligible in the master.
    pub masters: Seq<bool>,
    /// Whether the decks' common level is not negligible.
    pub both: bool,
    /// The deck that the crossfader is parked on, if either.
    pub parked: Option<int>,
}

/// Whether the name is that of a deck.
pub open spec fn is_deck(decks: Option<(Name, Name)>, name: Name) -> bool {
    decks matches Some(d) && (d.0 == name || d.1 == name)
}

impl Scene {
    /// Whether a group is composited this frame. One that is not heard, and one without
    /// layers that is no deck, gives its textures back instead. A deck renders even with
    /// nothing on it: an empty deck is a black image that the transition can fade to.
    pub open spec fn composes(&self, name: Name) -> bool {
        &&& nesting::group_heard(self.cs, self.gs, name)
        &&& nesting::items(self.cs, self.gs, name).len() > 0 || is_deck(self.decks, name)
    }

    /// Which groups hold this frame's image once the first `n` groups of the render
    /// order were drawn.
    pub open spec fn rendered_after(&self, n: nat) -> Seq<bool>
        decreases n,
    {
        if n == 0 {
            Seq::new(self.gs.len(), |i: int| false)
        } else {
            let name = self.gs[nesting::render_order(self.gs)[n - 1]].uuid;
            self.rendered_after((n - 1) as nat).update(
                nesting::group_at(self.gs, name)->0,
                self.composes(name),
            )
        }
    }

    /// Which groups hold this frame's image when the master is composited.
    pub open spec fn rendered(&self) -> Seq<bool> {
        self.rendered_after(self.gs.len())
    }

    /// What an item of a group is blended from, if it contributes.
    pub open spec fn item_source(&self, rendered: Seq<bool>, item: Item) -> Option<Source> {
        match item {
            Item::Channel(i) => if self.layers[i] {
                Some(Source::Channel(i as usize))
            } else {
                None
            },
            Item::Group(name) => match nesting::group_at(self.gs, name) {
                Some(g) if rendered[g] && self.nested[g] => Some(Source::Group(g as usize)),
                _ => None,
            },
        }
    }

    /// The blends of the first `n` items of a group.
    pub open spec fn item_steps(
        &self,
        rendered: Seq<bool>,
        items: Seq<Item>,
        n: nat,
    ) -> Seq<BlendStep>
        decreases n,
    {
        if n == 0 {
            Seq::empty()
        } else {
            let before = self.item_steps(rendered, items, (n - 1) as nat);
            match self.item_source(rendered, items[n - 1]) {
                Some(source) => before.push(
                    step((n - 1) as usize, source, kind_of(source), before.len()),
                ),
                None => before,
            }
        }
    }

    /// The blends that composite a group, once `n` groups of the render order were drawn.
    pub open spec fn group_steps(&self, name: Name, n: nat) -> Seq<BlendStep> {
        let items = nesting::items(self.cs, self.gs, name);
        self.item_steps(self.rendered_after(n), items, items.len())
    }

    /// Whether the group of that name holds this frame's image.
    pub open spec fn has_image(&self, name: Name) -> bool {
        nesting::group_at(self.gs, name) matches Some(g) && self.rendered()[g]
    }

    /// What the master blends where the two decks sit. `None` where they composite as
    /// ordinary groups: no decks, no transition loaded, or one of them did not render. At
    /// the ends of the fader it is the winning deck itself.
    pub open spec fn deck_source(&self) -> Option<Source> {
        match self.decks {
            Some(d) if self.transition && self.has_image(d.0) && self.has_image(d.1) => {
                match self.parked {
                    Some(which) => {
                        let deck = if which == 0 {
                            d.0
                        } else {
                            d.1
                        };
                        Some(Source::Group(nesting::group_at(self.gs, deck)->0 as usize))
                    },
                    None => Some(Source::Transition),
                }
            },
            _ => None,
        }
    }

    /// Whether a channel contributes and belongs to that top-level group.
    pub open spec fn feeds(&self, i: int, top: Name) -> bool {
        self.layers[i] && (self.cs[i].group matches Some(g) && nesting::outermost(self.gs, g)
            == top)
    }

    /// The topmost of the first `n` channels that contribute to a top-level group.
    pub open spec fn anchor_below(&self, top: Name, n: nat) -> Option<int>
        decreases n,
    {
        if n == 0 {
            None
        } else if self.feeds(n - 1, top) {
            Some(n - 1)
        } else {
            self.anchor_below(top, (n - 1) as nat)
        }
    }

    /// Where a top-level group joins the master: at the topmost channel that contributes
    /// to it, at any depth.
    pub open spec fn anchor(&self, top: Name) -> Option<int> {
        self.anchor_below(top, self.cs.len())
    }

    /// Where the decks join the master as one image: the higher of their two anchors.
    pub open spec fn deck_anchor(&self) -> Option<int> {
        match (self.deck_source(), self.decks) {
            (Some(_), Some(d)) => match (self.anchor(d.0), self.anchor(d.1)) {
                (Some(a), Some(b)) => Some(
                    if a >= b {
                        a
                    } else {
                        b
                    },
                ),
                (Some(a), None) => Some(a),
                (None, b) => b,
            },
            _ => None,
        }
    }

    /// What the master blends at channel `i`, and with whose settings.
    pub open spec fn master_source(&self, i: int) -> Option<(Source, StepKind)> {
        if !self.layers[i] {
            None
        } else {
            match self.cs[i].group {
                None => Some((Source::Channel(i as usize), StepKind::Layer)),
                Some(g) => {
                    let top = nesting::outermost(self.gs, g);
                    if self.deck_anchor() is Some && nesting::deck_index(self.gs, self.decks, top)
                        is Some {
                        if self.deck_anchor() == Some(i) && self.both {
                            Some((self.deck_source()->0, StepKind::Decks))
                        } else {
                            None
                        }
                    } else {
                        match nesting::group_at(self.gs, top) {
                            Some(p) if self.anchor(top) == Some(i) && self.rendered()[p]
                                && self.masters[p] => Some(
                                (Source::Group(p as usize), StepKind::Group),
                            ),
                            _ => None,
                        }
                    }
                },
            }
        }
    }

    /// The master's blends over the first `n` channels.
    pub open spec fn master_steps(&self, n: nat) -> Seq<BlendStep>
        decreases n,
    {
        if n == 0 {
            Seq::empty()
        } else {
            let before = self.master_steps((n - 1) as nat);
            match self.master_source(n - 1) {
                Some((source, kind)) => before.push(
                    step((n - 1) as usize, source, kind, before.len()),
                ),
                None => before,
            }
        }
    }
}

/// The blend that follows `before` others: the accumulators take turns, A first.
pub open spec fn step(slot: usize, source: Source, kind: StepKind, before: nat) -> BlendStep {
    BlendStep { slot, source, kind, dest_is_a: before % 2 == 0 }
}

/// Whose settings an item of a group is blended with.
pub open spec fn kind_of(source: Source) -> StepKind {
    match source {
        Source::Channel(_) => StepKind::Layer,
        _ => StepKind::Group,
    }
}

} // verus!
