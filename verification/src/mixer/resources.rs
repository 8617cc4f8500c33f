//! When textures are made and given back, and how a chain runs over two of them.

use vstd::prelude::*;

use crate::mixer::frame::FramePlan;
use crate::mixer::types;
use crate::mixer::types::{Channel, ChannelGroup, EffectSlot, InputSelect, LastOutput, Mixer};

verus! {

/// Whether two sizes are the same.
fn same_size(a: &[u32; 2], b: &[u32; 2]) -> (same: bool)
    ensures
        same == (a@ == b@),
{
    let same = a[0] == b[0] && a[1] == b[1];
    proof {
        if same {
            assert(a@ =~= b@);
        }
    }
    same
}

/// Whether a texture has to be made: there is none, or it has another size.
pub fn texture_is_stale(have: &Option<[u32; 2]>, size: &[u32; 2]) -> (stale: bool)
    ensures
        stale == match have {
            Some(h) => h@ != size@,
            None => true,
        },
{
    match have {
        Some(h) => !same_size(h, size),
        None => true,
    }
}

/// One pass of a chain.
#[derive(Debug, Clone, Copy, PartialEq, Eq, Structural)]
pub struct ChainPass {
    /// The slot whose effect draws.
    pub slot: usize,
    /// Whether it samples the second texture and draws into the first, or the other way
    /// round.
    pub reads_ping: bool,
}

/// How a chain runs over two textures.
pub struct ChainPlan {
    pub passes: Vec<ChainPass>,
    /// Which texture holds the outcome.
    pub output: LastOutput,
}

/// The passes of the first `n` slots: the enabled ones, taking turns between the two
/// textures.
pub open spec fn passes_of<E>(slots: Seq<EffectSlot<E>>, n: nat) -> Seq<ChainPass>
    decreases n,
{
    if n == 0 {
        Seq::empty()
    } else {
        let before = passes_of(slots, (n - 1) as nat);
        if slots[n - 1].enabled {
            before.push(ChainPass { slot: (n - 1) as usize, reads_ping: before.len() % 2 == 1 })
        } else {
            before
        }
    }
}

/// How many slots are enabled.
pub open spec fn enabled_count<E>(slots: Seq<EffectSlot<E>>) -> nat {
    passes_of(slots, slots.len()).len()
}

/// The texture that holds the outcome of `n` passes.
pub open spec fn output_after(n: nat) -> LastOutput {
    if n % 2 == 1 {
        LastOutput::Ping
    } else {
        LastOutput::Texture
    }
}

/// Plans the passes of a chain: each enabled effect samples what the one before it drew.
/// The outcome may lie in the first texture untouched, when no effect is enabled.
pub fn run_chain<E>(slots: &Vec<EffectSlot<E>>) -> (plan: ChainPlan)
    ensures
        plan.passes@ == passes_of(slots@, slots@.len()),
        plan.output == output_after(enabled_count(slots@)),
{
    let mut passes: Vec<ChainPass> = Vec::new();
    let mut is_ping = false;
    let mut n: usize = 0;
    while n < slots.len()
        invariant
            n <= slots.len(),
            passes@ == passes_of(slots@, n as nat),
            is_ping == (passes@.len() % 2 == 1),
        decreases slots.len() - n,
    {
        if slots[n].enabled {
            passes.push(ChainPass { slot: n, reads_ping: is_ping });
            is_ping = !is_ping;
        }
        n = n + 1;
    }
    let output = if is_ping {
        LastOutput::Ping
    } else {
        LastOutput::Texture
    };
    ChainPlan { passes, output }
}

/// Each pass of a chain samples the texture that the pass before it drew into, the first
/// one the input, and the outcome lies where the last one drew.
pub proof fn law_chain_hands_on<E>(slots: Seq<EffectSlot<E>>, n: nat)
    requires
        n <= slots.len() <= usize::MAX,
    ensures
        forall|k: int|
            0 <= k < passes_of(slots, n).len() ==> (#[trigger] passes_of(slots, n)[k]).reads_ping
                == (k % 2 == 1) && passes_of(slots, n)[k].slot < n
                && slots[passes_of(slots, n)[k].slot as int].enabled,
        passes_of(slots, n).len() > 0 ==> (output_after(passes_of(slots, n).len())
            == LastOutput::Ping) == !passes_of(slots, n).last().reads_ping,
    decreases n,
{
    if n > 0 {
        let before = passes_of(slots, (n - 1) as nat);
        law_chain_hands_on(slots, (n - 1) as nat);
        assert forall|k: int| 0 <= k < passes_of(slots, n).len() implies (#[trigger] passes_of(
            slots,
            n,
        )[k]).reads_ping == (k % 2 == 1) && passes_of(slots, n)[k].slot < n
            && slots[passes_of(slots, n)[k].slot as int].enabled by {
            if k < before.len() {
                assert(passes_of(slots, n)[k] == before[k]);
            }
        }
    }
}

/// A chain runs each enabled effect exactly once, in the order of its slots, and no other.
pub proof fn law_enabled_effects_run_in_order<E>(slots: Seq<EffectSlot<E>>, n: nat)
    requires
        n <= slots.len() <= usize::MAX,
    ensures
        forall|j: int, k: int|
            0 <= j < k < passes_of(slots, n).len() ==> (#[trigger] passes_of(slots, n)[j]).slot < (
            #[trigger] passes_of(slots, n)[k]).slot,
        forall|k: int|
            0 <= k < passes_of(slots, n).len() ==> (#[trigger] passes_of(slots, n)[k]).slot < n
                && slots[passes_of(slots, n)[k].slot as int].enabled,
        forall|s: int|
            0 <= s < n && (#[trigger] slots[s]).enabled ==> exists|k: int|
                0 <= k < passes_of(slots, n).len() && (#[trigger] passes_of(slots, n)[k]).slot == s,
    decreases n,
{
    if n > 0 {
        let m = (n - 1) as nat;
        let before = passes_of(slots, m);
        let all = passes_of(slots, n);
        law_enabled_effects_run_in_order(slots, m);
        assert forall|k: int| 0 <= k < before.len() implies #[trigger] all[k] == before[k] by {}
        assert forall|j: int, k: int| 0 <= j < k < all.len() implies (#[trigger] all[j]).slot < (
        #[trigger] all[k]).slot by {
            assert(all[j] == before[j]);
            assert(before[j].slot < m);
            if k < before.len() {
                assert(all[k] == before[k]);
            }
        }
        assert forall|k: int| 0 <= k < all.len() implies (#[trigger] all[k]).slot < n
            && slots[all[k].slot as int].enabled by {
            if k < before.len() {
                assert(all[k] == before[k]);
            }
        }
        assert forall|s: int| 0 <= s < n && (#[trigger] slots[s]).enabled implies exists|k: int|
            0 <= k < all.len() && (#[trigger] all[k]).slot == s by {
            if s < m {
                let k = choose|k: int| 0 <= k < before.len() && (#[trigger] before[k]).slot == s;
                assert(all[k].slot == s);
            } else {
                assert(all[all.len() - 1].slot == s);
            }
        }
    }
}

/// A channel set to one input gets that input and no other, if the engine has it; one set
/// to both gets all that there are.
pub proof fn law_selection_hands_its_inputs(inputs: nat, at: nat)
    ensures
        ({
            let one = input_span(InputSelect::Slot1, inputs);
            one.0 <= at < one.1 <==> at == 0 && at < inputs
        }),
        ({
            let two = input_span(InputSelect::Slot2, inputs);
            two.0 <= at < two.1 <==> at == 1 && at < inputs
        }),
        ({
            let both = input_span(InputSelect::Both, inputs);
            both.0 <= at < both.1 <==> at < inputs
        }),
{
}

/// Without an enabled effect the outcome is the input.
pub proof fn law_idle_chain_is_the_input<E>(slots: Seq<EffectSlot<E>>)
    requires
        forall|i: int| 0 <= i < slots.len() ==> !(#[trigger] slots[i]).enabled,
    ensures
        passes_of(slots, slots.len()).len() == 0,
        output_after(enabled_count(slots)) == LastOutput::Texture,
{
    lemma_idle(slots, slots.len());
}

proof fn lemma_idle<E>(slots: Seq<EffectSlot<E>>, n: nat)
    requires
        n <= slots.len(),
        forall|i: int| 0 <= i < slots.len() ==> !(#[trigger] slots[i]).enabled,
    ensures
        passes_of(slots, n).len() == 0,
    decreases n,
{
    if n > 0 {
        lemma_idle(slots, (n - 1) as nat);
        assert(!slots[n - 1].enabled);
    }
}

/// Which of the engine's inputs a selection hands to a channel: from the first place up
/// to the second.
pub open spec fn input_span(select: InputSelect, inputs: nat) -> (nat, nat) {
    let one = if inputs < 1 {
        inputs
    } else {
        1
    };
    let two = if inputs < 2 {
        inputs
    } else {
        2
    };
    match select {
        InputSelect::Slot1 => (0, one),
        InputSelect::Slot2 => (one, two),
        InputSelect::Both => (0, inputs),
    }
}

impl InputSelect {
    /// Which of the engine's inputs the selection hands to a channel: from the first
    /// place up to the second, as far as there are inputs.
    pub fn span(self, inputs: usize) -> (r: (usize, usize))
        ensures
            r.0 == input_span(self, inputs as nat).0,
            r.1 == input_span(self, inputs as nat).1,
            r.0 <= r.1 <= inputs,
    {
        let one: usize = if inputs < 1 {
            inputs
        } else {
            1
        };
        let two: usize = if inputs < 2 {
            inputs
        } else {
            2
        };
        match self {
            InputSelect::Slot1 => (0, one),
            InputSelect::Slot2 => (one, two),
            InputSelect::Both => (0, inputs),
        }
    }
}

impl<E, M> Channel<E, M> {
    /// Makes the channel's textures match `size`; says whether they have to be made anew.
    pub fn ensure_size(&mut self, size: [u32; 2]) -> (stale: bool)
        ensures
            stale == (old(self).size@ != size@),
            *final(self) == (if stale {
                Channel { size, last_output: LastOutput::Texture, ..*old(self) }
            } else {
                *old(self)
            }),
    {
        if same_size(&self.size, &size) {
            return false;
        }
        self.size = size;
        self.last_output = LastOutput::Texture;
        true
    }

    /// Plans the channel's draw: its effect into the first texture, then the chain.
    /// `None` before the channel has textures.
    pub fn render(&mut self) -> (plan: Option<ChainPlan>)
        ensures
            plan is None <==> old(self).size@ == seq![0u32, 0u32],
            plan matches Some(p) ==> p.passes@ == passes_of(
                old(self).chain@,
                old(self).chain@.len(),
            ) && p.output == output_after(enabled_count(old(self).chain@)) && *final(self) == (
            Channel { last_output: p.output, ..*old(self) }),
            plan is None ==> *final(self) == *old(self),
    {
        if self.output_texture().is_none() {
            return None;
        }
        let plan = run_chain(&self.chain);
        self.last_output = plan.output;
        Some(plan)
    }
}

/// A group's textures after they were made for a size.
pub open spec fn group_allocated<E, M>(
    g: ChannelGroup<E, M>,
    size: [u32; 2],
) -> ChannelGroup<E, M> {
    if g.size@ == size@ && g.allocated {
        g
    } else {
        ChannelGroup { allocated: true, size, ..g }
    }
}

/// A group after its textures were given back.
pub open spec fn group_released<E, M>(
    before: ChannelGroup<E, M>,
    after: ChannelGroup<E, M>,
) -> bool {
    if before.allocated {
        &&& after == (ChannelGroup { allocated: false, rendered: false, size: after.size, ..before })
        &&& after.size@ == seq![0u32, 0u32]
    } else {
        after == before
    }
}

impl<E, M> ChannelGroup<E, M> {
    /// Makes the group's textures match `size`; says whether they have to be made anew.
    pub fn ensure_resources(&mut self, size: [u32; 2]) -> (stale: bool)
        ensures
            stale == (old(self).size@ != size@ || !old(self).allocated),
            *final(self) == group_allocated(*old(self), size),
    {
        if same_size(&self.size, &size) && self.allocated {
            return false;
        }
        self.allocated = true;
        self.size = size;
        true
    }

    /// Gives back the group's full-resolution textures; says whether it held any. They
    /// are made again the moment the group has members again.
    pub fn release_resources(&mut self) -> (held: bool)
        ensures
            held == old(self).allocated,
            group_released(*old(self), *final(self)),
    {
        if !self.allocated {
            return false;
        }
        let none: [u32; 2] = [0, 0];
        assert(none@ =~= seq![0u32, 0u32]);
        self.allocated = false;
        self.size = none;
        self.rendered = false;
        true
    }
}

/// Which textures have to be made anew.
pub struct Allocation {
    /// The mixer's own pipelines and textures.
    pub mixer: bool,
    /// Each channel's.
    pub channels: Vec<bool>,
}

/// The generation after `n` bumps.
pub open spec fn bumped(g: u64, n: nat) -> u64
    decreases n,
{
    if n == 0 {
        g
    } else {
        types::next_generation(bumped(g, (n - 1) as nat))
    }
}

/// How many of the first `n` channels run another number of effects than when it was
/// last looked.
pub open spec fn changed_chains<E, M>(channels: Seq<Channel<E, M>>, n: nat) -> nat
    decreases n,
{
    if n == 0 {
        0
    } else {
        changed_chains(channels, (n - 1) as nat) + (if channels[n - 1].last_enabled_count
            != enabled_count(channels[n - 1].chain@) {
            1nat
        } else {
            0nat
        })
    }
}

/// A group after a frame in which it was composited, or not.
pub open spec fn group_after<E, M>(
    before: ChannelGroup<E, M>,
    after: ChannelGroup<E, M>,
    size: [u32; 2],
    rendered: bool,
) -> bool {
    if rendered {
        after == (ChannelGroup { rendered: true, ..group_allocated(before, size) })
    } else {
        group_released(ChannelGroup { rendered: false, ..before }, after)
    }
}

impl<E, M> Mixer<E, M> {
    /// Makes all mixer-level and per-channel textures match `size`; says which of them
    /// have to be made anew.
    pub fn ensure_resources(&mut self, size: [u32; 2]) -> (need: Allocation)
        ensures
            need.mixer == (old(self).size@ != size@ || !old(self).allocated),
            need.channels@.len() == old(self).channels@.len(),
            final(self).channels@.len() == old(self).channels@.len(),
            forall|i: int|
                0 <= i < old(self).channels@.len() ==> {
                    let c = old(self).channels@[i];
                    &&& need.channels@[i] == (c.size@ != size@)
                    &&& #[trigger] final(self).channels@[i] == (if c.size@ != size@ {
                        Channel { size, last_output: LastOutput::Texture, ..c }
                    } else {
                        c
                    })
                },
            *final(self) == (if need.mixer {
                Mixer {
                    channels: final(self).channels,
                    allocated: true,
                    size,
                    generation: types::next_generation(old(self).generation),
                    ..*old(self)
                }
            } else {
                Mixer { channels: final(self).channels, ..*old(self) }
            }),
    {
        let mixer = !same_size(&self.size, &size) || !self.allocated;
        if mixer {
            self.allocated = true;
            self.size = size;
            self.invalidate_composite_cache();
        }
        let ghost after = *self;
        let mut channels: Vec<bool> = Vec::new();
        let mut i: usize = 0;
        while i < self.channels.len()
            invariant
                i <= self.channels.len(),
                *self == (Mixer { channels: self.channels, ..after }),
                self.channels@.len() == old(self).channels@.len(),
                channels@.len() == i,
                forall|j: int|
                    0 <= j < i ==> {
                        let c = old(self).channels@[j];
                        &&& channels@[j] == (c.size@ != size@)
                        &&& #[trigger] self.channels@[j] == (if c.size@ != size@ {
                            Channel { size, last_output: LastOutput::Texture, ..c }
                        } else {
                            c
                        })
                    },
                forall|j: int|
                    i <= j < self.channels@.len() ==> #[trigger] self.channels@[j] == old(
                        self,
                    ).channels@[j],
            decreases self.channels.len() - i,
        {
            let stale = self.channels[i].ensure_size(size);
            channels.push(stale);
            i = i + 1;
        }
        Allocation { mixer, channels }
    }

    /// Looks for chains that run another number of effects than last frame. Such a change
    /// flips which of a channel's textures is sampled, so each one invalidates the
    /// composite cache.
    pub fn note_enabled_counts(&mut self)
        ensures
            *final(self) == (Mixer {
                channels: final(self).channels,
                generation: bumped(
                    old(self).generation,
                    changed_chains(old(self).channels@, old(self).channels@.len()),
                ),
                ..*old(self)
            }),
            final(self).channels@.len() == old(self).channels@.len(),
            forall|i: int|
                0 <= i < old(self).channels@.len() ==> #[trigger] final(self).channels@[i] == (
                Channel {
                    last_enabled_count: enabled_count(old(self).channels@[i].chain@) as usize,
                    ..old(self).channels@[i]
                }),
    {
        let mut i: usize = 0;
        while i < self.channels.len()
            invariant
                i <= self.channels.len(),
                *self == (Mixer {
                    channels: self.channels,
                    generation: bumped(
                        old(self).generation,
                        changed_chains(old(self).channels@, i as nat),
                    ),
                    ..*old(self)
                }),
                self.channels@.len() == old(self).channels@.len(),
                forall|j: int|
                    0 <= j < i ==> #[trigger] self.channels@[j] == (Channel {
                        last_enabled_count: enabled_count(old(self).channels@[j].chain@) as usize,
                        ..old(self).channels@[j]
                    }),
                forall|j: int|
                    i <= j < self.channels@.len() ==> #[trigger] self.channels@[j] == old(
                        self,
                    ).channels@[j],
            decreases self.channels.len() - i,
        {
            let current: usize = run_chain(&self.channels[i].chain).passes.len();
            if self.channels[i].last_enabled_count != current {
                self.channels[i].last_enabled_count = current;
                self.invalidate_composite_cache();
            }
            i = i + 1;
        }
    }

    /// Brings the groups' textures and flags in line with a frame's plan; says which
    /// groups need their textures made anew.
    pub fn apply_groups(&mut self, plan: &FramePlan) -> (stale: Vec<bool>)
        requires
            plan.rendered@.len() == old(self).groups@.len(),
        ensures
            *final(self) == (Mixer { groups: final(self).groups, ..*old(self) }),
            final(self).groups@.len() == old(self).groups@.len(),
            stale@.len() == old(self).groups@.len(),
            forall|i: int|
                0 <= i < old(self).groups@.len() ==> group_after(
                    old(self).groups@[i],
                    #[trigger] final(self).groups@[i],
                    old(self).size,
                    plan.rendered@[i],
                ) && stale@[i] == (plan.rendered@[i] && (old(self).groups@[i].size@ != old(
                    self,
                ).size@ || !old(self).groups@[i].allocated)),
    {
        let mut stale: Vec<bool> = Vec::new();
        let mut i: usize = 0;
        while i < self.groups.len()
            invariant
                i <= self.groups.len(),
                plan.rendered@.len() == self.groups@.len(),
                *self == (Mixer { groups: self.groups, ..*old(self) }),
                self.groups@.len() == old(self).groups@.len(),
                stale@.len() == i,
                forall|j: int|
                    0 <= j < i ==> group_after(
                        old(self).groups@[j],
                        #[trigger] self.groups@[j],
                        old(self).size,
                        plan.rendered@[j],
                    ) && stale@[j] == (plan.rendered@[j] && (old(self).groups@[j].size@ != old(
                        self,
                    ).size@ || !old(self).groups@[j].allocated)),
                forall|j: int|
                    i <= j < self.groups@.len() ==> #[trigger] self.groups@[j] == old(
                        self,
                    ).groups@[j],
            decreases self.groups.len() - i,
        {
            let size = self.size;
            if plan.rendered[i] {
                let anew = self.groups[i].ensure_resources(size);
                self.groups[i].rendered = true;
                stale.push(anew);
            } else {
                self.groups[i].rendered = false;
                self.groups[i].release_resources();
                stale.push(false);
            }
            i = i + 1;
        }
        stale
    }
}

/// What belongs to a group whatever becomes of its textures.
pub open spec fn same_group<E, M>(a: ChannelGroup<E, M>, b: ChannelGroup<E, M>) -> bool {
    &&& a.uuid == b.uuid && a.name == b.name && a.parent == b.parent
    &&& a.chain == b.chain && a.mix == b.mix
    &&& a.solo == b.solo && a.mute == b.mute && a.collapsed == b.collapsed
    &&& a.opacity_key == b.opacity_key && a.blend_key == b.blend_key
}

/// A group that was composited holds textures of the frame's size with its image in them;
/// one that was not holds none, and no image either. Nothing else of it changes.
pub proof fn law_group_holds_what_it_draws<E, M>(
    before: ChannelGroup<E, M>,
    after: ChannelGroup<E, M>,
    size: [u32; 2],
    rendered: bool,
)
    requires
        group_after(before, after, size, rendered),
    ensures
        after.rendered == rendered,
        after.allocated == rendered,
        rendered ==> after.size@ == size@,
        !rendered ==> after.size@ == (if before.allocated {
            seq![0u32, 0u32]
        } else {
            before.size@
        }),
        same_group(before, after),
{
}

/// Making a group's textures for a size leaves it with textures of that size, and giving
/// them back leaves it with none and without an image. Nothing else of it changes.
pub proof fn law_group_textures<E, M>(
    before: ChannelGroup<E, M>,
    after: ChannelGroup<E, M>,
    size: [u32; 2],
)
    ensures
        group_allocated(before, size).allocated,
        group_allocated(before, size).size@ == size@,
        group_allocated(before, size).rendered == before.rendered,
        same_group(before, group_allocated(before, size)),
        group_released(before, after) ==> !after.allocated && same_group(before, after),
        group_released(before, after) && before.allocated ==> !after.rendered && after.size@
            == seq![0u32, 0u32],
        group_released(before, after) && !before.allocated ==> after == before,
{
}

/// The generation counts every bump, around the end of its range.
pub proof fn law_bumps_add_up(g: u64, n: nat)
    ensures
        bumped(g, n) as int == (g + n) % 0x1_0000_0000_0000_0000,
    decreases n,
{
    if n > 0 {
        law_bumps_add_up(g, (n - 1) as nat);
    }
}

/// Whether a channel runs another number of effects than when it was last looked.
pub open spec fn chain_changed<E, M>() -> spec_fn(Channel<E, M>) -> bool {
    |c: Channel<E, M>|
        c.last_enabled_count != c.chain@.filter(|s: EffectSlot<E>| s.enabled).len()
}

/// The chains that are counted as changed are those of the channels whose number of
/// enabled effects is another than the one last seen, each once.
pub proof fn law_changed_chains<E, M>(channels: Seq<Channel<E, M>>, n: nat)
    requires
        n <= channels.len(),
    ensures
        changed_chains(channels, n) == channels.take(n as int).filter(chain_changed()).len(),
    decreases n,
{
    reveal(Seq::filter);
    if n > 0 {
        law_changed_chains(channels, (n - 1) as nat);
        law_enabled_effects_are_counted(channels[n - 1].chain@);
        assert(channels.take(n as int).drop_last() =~= channels.take(n - 1));
    }
}

/// The number of enabled effects is that of the slots that are enabled.
pub proof fn law_enabled_effects_are_counted<E>(slots: Seq<EffectSlot<E>>)
    ensures
        enabled_count(slots) == slots.filter(|s: EffectSlot<E>| s.enabled).len(),
{
    lemma_enabled_below(slots, slots.len());
    assert(slots.take(slots.len() as int) =~= slots);
}

proof fn lemma_enabled_below<E>(slots: Seq<EffectSlot<E>>, n: nat)
    requires
        n <= slots.len(),
    ensures
        passes_of(slots, n).len() == slots.take(n as int).filter(
            |s: EffectSlot<E>| s.enabled,
        ).len(),
    decreases n,
{
    reveal(Seq::filter);
    if n > 0 {
        lemma_enabled_below(slots, (n - 1) as nat);
        assert(slots.take(n as int).drop_last() =~= slots.take(n - 1));
    }
}

} // verus!
