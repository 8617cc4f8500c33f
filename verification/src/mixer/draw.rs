//! One frame as a list of draws: every effect pass, clear, blend and copy, in the order in
//! which they run.

use vstd::prelude::*;

use crate::mixer::frame::{ends_in_a, FramePlan, GroupPass, Shown};
use crate::mixer::layers;
use crate::mixer::nesting;
use crate::mixer::nesting::{ChannelInfo, GroupInfo, Item, Name};
use crate::mixer::params::Owner;
use crate::mixer::resources;
use crate::mixer::resources::{run_chain, ChainPass};
use crate::mixer::scene::{BlendStep, Scene, Source};
use crate::mixer::types::{Channel, EffectSlot, InputSelect, LastOutput, Mixer};
use crate::order;

verus! {

/// Something that composites layers into one image.
#[derive(Debug, Clone, Copy, PartialEq, Eq, Structural)]
pub enum Bus {
    /// A group, by index.
    Group(usize),
    Master,
}

/// A texture of the mixer.
#[derive(Debug, Clone, Copy, PartialEq, Eq, Structural)]
pub enum Tex {
    /// A channel's first texture, or its second.
    Channel { channel: usize, ping: bool },
    /// A bus's first accumulator.
    AccA(Bus),
    /// Its second accumulator.
    AccB(Bus),
    /// The second texture of its chain.
    Ping(Bus),
    /// Its finished image. The master's is the frame itself.
    Out(Bus),
    /// Where the transition draws.
    Transition,
}

/// What an effect samples.
#[derive(Debug, Clone, Copy, PartialEq, Eq, Structural)]
pub enum Inputs {
    /// The engine's inputs, from the first place up to the second.
    Engine { from: usize, to: usize },
    One(Tex),
    Two(Tex, Tex),
}

/// One draw.
#[derive(Debug, Clone, Copy, PartialEq, Eq, Structural)]
pub enum Command {
    /// An effect is prepared and draws.
    Draw { effect: Owner, inputs: Inputs, target: Tex },
    /// A texture becomes transparent black.
    Clear { target: Tex },
    /// A bus's compositor blends `source` over `under`.
    Blend { bus: Bus, step: BlendStep, source: Tex, under: Tex, target: Tex },
    /// A texture is copied.
    Blit { from: Tex, target: Tex },
}

/// Whose chain of effects runs.
#[derive(Debug, Clone, Copy, PartialEq, Eq, Structural)]
pub enum Chain {
    /// A channel's, by index.
    Channel(usize),
    Bus(Bus),
}

/// Where a chain's slot sits.
pub open spec fn slot_owner(chain: Chain, slot: usize) -> Owner {
    match chain {
        Chain::Channel(channel) => Owner::ChannelSlot { channel, slot },
        Chain::Bus(Bus::Group(group)) => Owner::GroupSlot { group, slot },
        Chain::Bus(Bus::Master) => Owner::MasterSlot { slot },
    }
}

/// One pass of a chain over two textures.
pub open spec fn pass_command(chain: Chain, first: Tex, ping: Tex, pass: ChainPass) -> Command {
    Command::Draw {
        effect: slot_owner(chain, pass.slot),
        inputs: Inputs::One(
            if pass.reads_ping {
                ping
            } else {
                first
            },
        ),
        target: if pass.reads_ping {
            first
        } else {
            ping
        },
    }
}

/// The passes of a chain over two textures.
pub open spec fn chain_commands(
    chain: Chain,
    first: Tex,
    ping: Tex,
    passes: Seq<ChainPass>,
) -> Seq<Command> {
    passes.map_values(|p: ChainPass| pass_command(chain, first, ping, p))
}

/// Which texture holds the outcome of a chain.
pub open spec fn chain_result(first: Tex, ping: Tex, output: LastOutput) -> Tex {
    match output {
        LastOutput::Texture => first,
        LastOutput::Ping => ping,
    }
}

/// One of a bus's accumulators.
pub open spec fn acc(bus: Bus, a: bool) -> Tex {
    if a {
        Tex::AccA(bus)
    } else {
        Tex::AccB(bus)
    }
}

/// A channel's first texture, or its second.
pub open spec fn channel_tex(channel: int, output: LastOutput) -> Tex {
    Tex::Channel { channel: channel as usize, ping: output == LastOutput::Ping }
}

/// Whether a channel has textures to draw into.
pub open spec fn has_output<E, M>(c: Channel<E, M>) -> bool {
    c.size@ != seq![0u32, 0u32]
}

/// What a chain comes to.
pub open spec fn outcome<E>(slots: Seq<EffectSlot<E>>) -> LastOutput {
    resources::output_after(resources::enabled_count(slots))
}

/// The draws of a channel: its effect, then its chain. None before it has textures.
pub open spec fn channel_commands<E, M>(
    c: Channel<E, M>,
    channel: int,
    select: InputSelect,
    inputs: nat,
) -> Seq<Command> {
    if has_output(c) {
        let first = channel_tex(channel, LastOutput::Texture);
        let ping = channel_tex(channel, LastOutput::Ping);
        let span = resources::input_span(select, inputs);
        seq![
            Command::Draw {
                effect: Owner::Channel { channel: channel as usize },
                inputs: Inputs::Engine { from: span.0 as usize, to: span.1 as usize },
                target: first,
            },
        ] + chain_commands(
            Chain::Channel(channel as usize),
            first,
            ping,
            resources::passes_of(c.chain@, c.chain@.len()),
        )
    } else {
        Seq::empty()
    }
}

/// The draws of those of the first `n` channels that contribute.
pub open spec fn layer_commands<E, M>(
    channels: Seq<Channel<E, M>>,
    layers: Seq<bool>,
    selects: Seq<InputSelect>,
    inputs: nat,
    n: nat,
) -> Seq<Command>
    decreases n,
{
    if n == 0 {
        Seq::empty()
    } else {
        layer_commands(channels, layers, selects, inputs, (n - 1) as nat) + (if layers[n - 1] {
            channel_commands(channels[n - 1], n - 1, selects[n - 1], inputs)
        } else {
            Seq::empty()
        })
    }
}

impl<E, M> Mixer<E, M> {
    /// The texture that a blend samples.
    pub open spec fn source_tex(&self, source: Source) -> Tex {
        match source {
            Source::Channel(i) => channel_tex(i as int, outcome(self.channels@[i as int].chain@)),
            Source::Group(g) => Tex::Out(Bus::Group(g)),
            Source::Transition => Tex::Transition,
        }
    }

    /// One blend of a bus.
    pub open spec fn blend_command(&self, bus: Bus, step: BlendStep) -> Command {
        Command::Blend {
            bus,
            step,
            source: self.source_tex(step.source),
            under: acc(bus, step.dest_is_a),
            target: acc(bus, !step.dest_is_a),
        }
    }

    /// The blends of a bus.
    pub open spec fn blend_commands(&self, bus: Bus, steps: Seq<BlendStep>) -> Seq<Command> {
        steps.map_values(|s: BlendStep| self.blend_command(bus, s))
    }

    /// The draws of a bus: its first accumulator is cleared, the steps are blended, the
    /// chain runs over the result, and the outcome becomes the bus's image.
    pub open spec fn bus_commands(
        &self,
        bus: Bus,
        steps: Seq<BlendStep>,
        slots: Seq<EffectSlot<E>>,
    ) -> Seq<Command> {
        let composed = acc(bus, steps.len() % 2 == 0);
        seq![Command::Clear { target: Tex::AccA(bus) }] + self.blend_commands(bus, steps)
            + chain_commands(
            Chain::Bus(bus),
            composed,
            Tex::Ping(bus),
            resources::passes_of(slots, slots.len()),
        ) + seq![
            Command::Blit {
                from: chain_result(composed, Tex::Ping(bus), outcome(slots)),
                target: Tex::Out(bus),
            },
        ]
    }

    /// The draws of the first `n` groups of the render order.
    pub open spec fn group_commands(&self, sc: Scene, n: nat) -> Seq<Command>
        decreases n,
    {
        if n == 0 {
            Seq::empty()
        } else {
            let m = (n - 1) as nat;
            let name = sc.gs[nesting::render_order(sc.gs)[n - 1]].uuid;
            self.group_commands(sc, m) + (if sc.composes(name) {
                let g = nesting::group_at(sc.gs, name)->0;
                self.bus_commands(
                    Bus::Group(g as usize),
                    sc.group_steps(name, m),
                    self.groups@[g].chain@,
                )
            } else {
                Seq::empty()
            })
        }
    }

    /// The transition's draw, if the decks are combined by it.
    pub open spec fn transition_commands(&self, sc: Scene) -> Seq<Command> {
        match (sc.deck_source(), sc.decks) {
            (Some(Source::Transition), Some(d)) => seq![
                Command::Draw {
                    effect: Owner::Transition,
                    inputs: Inputs::Two(
                        Tex::Out(Bus::Group(nesting::group_at(sc.gs, d.0)->0 as usize)),
                        Tex::Out(Bus::Group(nesting::group_at(sc.gs, d.1)->0 as usize)),
                    ),
                    target: Tex::Transition,
                },
            ],
            _ => Seq::empty(),
        }
    }

    /// All draws of a frame: the layers, the groups deepest first, the decks, the master.
    pub open spec fn program(
        &self,
        shown: Shown,
        selects: Seq<InputSelect>,
        inputs: nat,
    ) -> Seq<Command> {
        let sc = self.scene(shown);
        layer_commands(self.channels@, shown.layers@, selects, inputs, self.channels@.len())
            + self.group_commands(sc, self.groups@.len()) + self.transition_commands(sc)
            + self.bus_commands(
            Bus::Master,
            sc.master_steps(self.channels@.len()),
            self.master@,
        )
    }
}

/// What a frame takes.
pub struct Frame {
    /// Which groups need their textures made anew first.
    pub stale: Vec<bool>,
    /// Whether the transition's texture is drawn into.
    pub transition: bool,
    pub commands: Vec<Command>,
}

fn push_chain(commands: &mut Vec<Command>, chain: Chain, first: Tex, ping: Tex, passes: &Vec<
    ChainPass,
>)
    ensures
        final(commands)@ == old(commands)@ + chain_commands(chain, first, ping, passes@),
{
    let mut k: usize = 0;
    while k < passes.len()
        invariant
            k <= passes.len(),
            commands@ == old(commands)@ + chain_commands(chain, first, ping, passes@).take(
                k as int,
            ),
        decreases passes.len() - k,
    {
        let pass = passes[k];
        let effect = match chain {
            Chain::Channel(channel) => Owner::ChannelSlot { channel, slot: pass.slot },
            Chain::Bus(Bus::Group(group)) => Owner::GroupSlot { group, slot: pass.slot },
            Chain::Bus(Bus::Master) => Owner::MasterSlot { slot: pass.slot },
        };
        if pass.reads_ping {
            commands.push(Command::Draw { effect, inputs: Inputs::One(ping), target: first });
        } else {
            commands.push(Command::Draw { effect, inputs: Inputs::One(first), target: ping });
        }
        k = k + 1;
        assert(commands@ =~= old(commands)@ + chain_commands(chain, first, ping, passes@).take(
            k as int,
        ));
    }
    assert(chain_commands(chain, first, ping, passes@).take(k as int) =~= chain_commands(
        chain,
        first,
        ping,
        passes@,
    ));
}

fn accumulator(bus: Bus, a: bool) -> (t: Tex)
    ensures
        t == acc(bus, a),
{
    if a {
        Tex::AccA(bus)
    } else {
        Tex::AccB(bus)
    }
}

impl<E, M> Mixer<E, M> {
    fn find_source(&self, source: Source) -> (t: Tex)
        requires
            source matches Source::Channel(i) ==> i < self.channels@.len(),
        ensures
            t == self.source_tex(source),
    {
        match source {
            Source::Channel(i) => Tex::Channel {
                channel: i,
                ping: run_chain(&self.channels[i].chain).output == LastOutput::Ping,
            },
            Source::Group(g) => Tex::Out(Bus::Group(g)),
            Source::Transition => Tex::Transition,
        }
    }

    fn push_bus(
        &self,
        commands: &mut Vec<Command>,
        bus: Bus,
        steps: &Vec<BlendStep>,
        slots: &Vec<EffectSlot<E>>,
    )
        requires
            forall|k: int|
                0 <= k < steps@.len() ==> ((#[trigger] steps@[k]).source matches Source::Channel(i)
                    ==> i < self.channels@.len()),
        ensures
            final(commands)@ == old(commands)@ + self.bus_commands(bus, steps@, slots@),
    {
        commands.push(Command::Clear { target: Tex::AccA(bus) });
        let ghost start = commands@;
        let mut k: usize = 0;
        while k < steps.len()
            invariant
                k <= steps.len(),
                commands@ == start + self.blend_commands(bus, steps@).take(k as int),
                forall|k: int|
                    0 <= k < steps@.len() ==> ((#[trigger] steps@[k]).source matches Source::Channel(
                        i,
                    ) ==> i < self.channels@.len()),
            decreases steps.len() - k,
        {
            let step = steps[k];
            let source = self.find_source(step.source);
            let under = accumulator(bus, step.dest_is_a);
            let target = accumulator(bus, !step.dest_is_a);
            commands.push(Command::Blend { bus, step, source, under, target });
            k = k + 1;
            assert(commands@ =~= start + self.blend_commands(bus, steps@).take(k as int));
        }
        assert(self.blend_commands(bus, steps@).take(k as int) =~= self.blend_commands(
            bus,
            steps@,
        ));
        let composed = accumulator(bus, ends_in_a(steps));
        let plan = run_chain(slots);
        push_chain(commands, Chain::Bus(bus), composed, Tex::Ping(bus), &plan.passes);
        let from = match plan.output {
            LastOutput::Texture => composed,
            LastOutput::Ping => Tex::Ping(bus),
        };
        commands.push(Command::Blit { from, target: Tex::Out(bus) });
        assert(commands@ =~= old(commands)@ + self.bus_commands(bus, steps@, slots@));
    }

    /// The draws of the channels that contribute. Each takes note of which of its textures
    /// holds its output.
    fn draw_layers(
        &mut self,
        shown: &Shown,
        selects: &Vec<InputSelect>,
        inputs: usize,
    ) -> (commands: Vec<Command>)
        requires
            shown.layers@.len() == old(self).channels@.len(),
            selects@.len() == old(self).channels@.len(),
        ensures
            commands@ == layer_commands(
                old(self).channels@,
                shown.layers@,
                selects@,
                inputs as nat,
                old(self).channels@.len(),
            ),
            *final(self) == (Mixer { channels: final(self).channels, ..*old(self) }),
            final(self).channels@.len() == old(self).channels@.len(),
            forall|i: int|
                0 <= i < old(self).channels@.len() ==> #[trigger] final(self).channels@[i] == drawn(
                    old(self).channels@[i],
                    shown.layers@[i],
                ),
    {
        let mut commands: Vec<Command> = Vec::new();
        let mut i: usize = 0;
        while i < self.channels.len()
            invariant
                i <= self.channels.len(),
                shown.layers@.len() == self.channels@.len(),
                selects@.len() == self.channels@.len(),
                self.channels@.len() == old(self).channels@.len(),
                *self == (Mixer { channels: self.channels, ..*old(self) }),
                commands@ == layer_commands(
                    old(self).channels@,
                    shown.layers@,
                    selects@,
                    inputs as nat,
                    i as nat,
                ),
                forall|j: int|
                    0 <= j < i ==> #[trigger] self.channels@[j] == drawn(
                        old(self).channels@[j],
                        shown.layers@[j],
                    ),
                forall|j: int|
                    i <= j < self.channels@.len() ==> #[trigger] self.channels@[j] == old(
                        self,
                    ).channels@[j],
            decreases self.channels.len() - i,
        {
            let ghost before = commands@;
            let ghost c = old(self).channels@[i as int];
            assert(self.channels@[i as int] == c);
            if shown.layers[i] {
                if let Some(plan) = self.channels[i].render() {
                    let (from, to) = selects[i].span(inputs);
                    let first = Tex::Channel { channel: i, ping: false };
                    let ping = Tex::Channel { channel: i, ping: true };
                    commands.push(
                        Command::Draw {
                            effect: Owner::Channel { channel: i },
                            inputs: Inputs::Engine { from, to },
                            target: first,
                        },
                    );
                    push_chain(&mut commands, Chain::Channel(i), first, ping, &plan.passes);
                    assert(commands@ =~= before + channel_commands(
                        c,
                        i as int,
                        selects@[i as int],
                        inputs as nat,
                    ));
                }
            }
            assert(commands@ =~= layer_commands(
                old(self).channels@,
                shown.layers@,
                selects@,
                inputs as nat,
                (i + 1) as nat,
            ));
            i = i + 1;
        }
        commands
    }
}

/// Whether a blend may sample a source: a layer that contributes, a group that holds this
/// frame's image, or the decks where the transition combines them.
pub open spec fn is_drawn(sc: Scene, rendered: Seq<bool>, source: Source) -> bool {
    match source {
        Source::Channel(i) => i < sc.cs.len() && sc.layers[i as int],
        Source::Group(g) => g < sc.gs.len() && rendered[g as int],
        Source::Transition => sc.deck_source() == Some(Source::Transition),
    }
}

proof fn lemma_items(cs: Seq<ChannelInfo>, gs: Seq<GroupInfo>, name: Name, k: int)
    requires
        0 <= k < nesting::items(cs, gs, name).len(),
    ensures
        nesting::items(cs, gs, name)[k] matches Item::Channel(i) ==> 0 <= i < cs.len(),
{
    let es = nesting::entries(cs, gs, name);
    order::law_stable_order(nesting::entry_keys(es));
    layers::lemma_members(cs, name, cs.len());
    let j = order::stable_order(nesting::entry_keys(es))[k];
    let own = nesting::member_entries(cs, name);
    if j < own.len() {
        assert(es[j] == own[j]);
    } else {
        lemma_children(cs, gs, name, gs.len());
        assert(es[j] == nesting::child_entries_below(cs, gs, name, gs.len())[j - own.len()]);
    }
}

proof fn lemma_children(cs: Seq<ChannelInfo>, gs: Seq<GroupInfo>, name: Name, n: nat)
    requires
        n <= gs.len(),
    ensures
        forall|k: int|
            0 <= k < nesting::child_entries_below(cs, gs, name, n).len()
                ==> (#[trigger] nesting::child_entries_below(cs, gs, name, n)[k]).1 is Group,
    decreases n,
{
    if n > 0 {
        lemma_children(cs, gs, name, (n - 1) as nat);
    }
}

/// A group blends only what was drawn before it, and its accumulators take turns.
pub proof fn lemma_group_steps(sc: Scene, rendered: Seq<bool>, name: Name, n: nat)
    requires
        sc.cs.len() <= usize::MAX,
        sc.gs.len() <= usize::MAX,
        n <= nesting::items(sc.cs, sc.gs, name).len(),
    ensures
        forall|k: int|
            0 <= k < sc.item_steps(rendered, nesting::items(sc.cs, sc.gs, name), n).len() ==> {
                let s = #[trigger] sc.item_steps(rendered, nesting::items(sc.cs, sc.gs, name), n)[k];
                is_drawn(sc, rendered, s.source) && s.dest_is_a == (k % 2 == 0)
            },
    decreases n,
{
    if n > 0 {
        let items = nesting::items(sc.cs, sc.gs, name);
        let m = (n - 1) as nat;
        lemma_group_steps(sc, rendered, name, m);
        lemma_items(sc.cs, sc.gs, name, n - 1);
        if let Item::Group(inner) = items[n - 1] {
            nesting::lemma_group_at(sc.gs, inner);
        }
        let before = sc.item_steps(rendered, items, m);
        assert forall|k: int| 0 <= k < sc.item_steps(rendered, items, n).len() implies {
            let s = #[trigger] sc.item_steps(rendered, items, n)[k];
            is_drawn(sc, rendered, s.source) && s.dest_is_a == (k % 2 == 0)
        } by {
            if k < before.len() {
                assert(sc.item_steps(rendered, items, n)[k] == before[k]);
            }
        }
    }
}

/// The master blends only what was drawn before it, and its accumulators take turns.
pub proof fn lemma_master_steps(sc: Scene, n: nat)
    requires
        sc.cs.len() <= usize::MAX,
        sc.gs.len() <= usize::MAX,
        n <= sc.cs.len(),
    ensures
        forall|k: int|
            0 <= k < sc.master_steps(n).len() ==> {
                let s = #[trigger] sc.master_steps(n)[k];
                is_drawn(sc, sc.rendered(), s.source) && s.dest_is_a == (k % 2 == 0)
            },
    decreases n,
{
    if n > 0 {
        let m = (n - 1) as nat;
        lemma_master_steps(sc, m);
        if let Some(g) = sc.cs[n - 1].group {
            nesting::lemma_group_at(sc.gs, nesting::outermost(sc.gs, g));
        }
        if let Some(d) = sc.decks {
            nesting::lemma_group_at(sc.gs, d.0);
            nesting::lemma_group_at(sc.gs, d.1);
        }
        let before = sc.master_steps(m);
        assert forall|k: int| 0 <= k < sc.master_steps(n).len() implies {
            let s = #[trigger] sc.master_steps(n)[k];
            is_drawn(sc, sc.rendered(), s.source) && s.dest_is_a == (k % 2 == 0)
        } by {
            if k < before.len() {
                assert(sc.master_steps(n)[k] == before[k]);
            }
        }
    }
}

impl<E, M> Mixer<E, M> {
    /// The draws of the groups.
    fn push_groups(&self, commands: &mut Vec<Command>, shown: &Shown, plan: &FramePlan)
        requires
            self.covers(*shown),
            plan.groups@.len() == self.groups@.len(),
            forall|n: int|
                0 <= n < plan.groups@.len() ==> (#[trigger] plan.groups@[n]).is_pass(
                    self.scene(*shown),
                    nesting::render_order(self.group_infos())[n],
                    n as nat,
                ),
        ensures
            final(commands)@ == old(commands)@ + self.group_commands(
                self.scene(*shown),
                self.groups@.len(),
            ),
    {
        let ghost sc = self.scene(*shown);
        let mut n: usize = 0;
        assert(commands@ =~= old(commands)@ + self.group_commands(sc, 0));
        while n < plan.groups.len()
            invariant
                n <= plan.groups.len(),
                sc == self.scene(*shown),
                self.covers(*shown),
                plan.groups@.len() == self.groups@.len(),
                forall|n: int|
                    0 <= n < plan.groups@.len() ==> (#[trigger] plan.groups@[n]).is_pass(
                        sc,
                        nesting::render_order(sc.gs)[n],
                        n as nat,
                    ),
                commands@ == old(commands)@ + self.group_commands(sc, n as nat),
            decreases plan.groups.len() - n,
        {
            let ghost before = commands@;
            let ghost name = sc.gs[nesting::render_order(sc.gs)[n as int]].uuid;
            assert(plan.groups@[n as int].is_pass(
                sc,
                nesting::render_order(sc.gs)[n as int],
                n as nat,
            ));
            proof {
                order::law_stable_order(nesting::render_keys(sc.gs));
                nesting::lemma_group_at(sc.gs, name);
                assert(self.channels.len() == sc.cs.len() && self.groups.len() == sc.gs.len());
                lemma_group_steps(
                    sc,
                    sc.rendered_after(n as nat),
                    name,
                    nesting::items(sc.cs, sc.gs, name).len(),
                );
            }
            if let GroupPass::Composite { group, steps } = &plan.groups[n] {
                self.push_bus(commands, Bus::Group(*group), steps, &self.groups[*group].chain);
            }
            assert(commands@ =~= old(commands)@ + self.group_commands(sc, (n + 1) as nat));
            n = n + 1;
        }
    }

    /// The transition's draw, if the decks are combined by it.
    fn push_transition(&self, commands: &mut Vec<Command>, shown: &Shown, plan: &FramePlan)
        requires
            plan.decks == self.scene(*shown).deck_source(),
        ensures
            final(commands)@ == old(commands)@ + self.transition_commands(self.scene(*shown)),
    {
        let ghost sc = self.scene(*shown);
        if let (Some(Source::Transition), Some(decks)) = (plan.decks, &self.decks) {
            if let (Some(a), Some(b)) = (self.find_group(&decks[0]), self.find_group(&decks[1])) {
                commands.push(
                    Command::Draw {
                        effect: Owner::Transition,
                        inputs: Inputs::Two(Tex::Out(Bus::Group(a)), Tex::Out(Bus::Group(b))),
                        target: Tex::Transition,
                    },
                );
            }
        }
        assert(commands@ =~= old(commands)@ + self.transition_commands(sc));
    }

    /// Draws one frame: given what is shown, which of the engine's inputs each channel
    /// selects and how many there are, gives every draw in its order. The textures were
    /// made for the frame's size before.
    ///
    /// A grouped span composites into the group's own accumulator first, so that the
    /// group's chain sees one image rather than each member separately. Groups run deepest
    /// first, so that a child's image is finished before its parent samples it. The two
    /// decks become one image before the master, where only ungrouped layers, outermost
    /// groups and that image are blended.
    pub fn render_to(&mut self, shown: &Shown, selects: &Vec<InputSelect>, inputs: usize) -> (frame:
        Frame)
        requires
            old(self).covers(*shown),
            selects@.len() == old(self).channels@.len(),
        ensures
            frame.commands@ == old(self).program(*shown, selects@, inputs as nat),
            frame.transition == (old(self).scene(*shown).deck_source() == Some(Source::Transition)),
            *final(self) == (Mixer {
                channels: final(self).channels,
                groups: final(self).groups,
                ..*old(self)
            }),
            final(self).channels@.len() == old(self).channels@.len(),
            forall|i: int|
                0 <= i < old(self).channels@.len() ==> #[trigger] final(self).channels@[i] == drawn(
                    old(self).channels@[i],
                    shown.layers@[i],
                ),
            final(self).groups@.len() == old(self).groups@.len(),
            frame.stale@.len() == old(self).groups@.len(),
            forall|i: int|
                0 <= i < old(self).groups@.len() ==> resources::group_after(
                    old(self).groups@[i],
                    #[trigger] final(self).groups@[i],
                    old(self).size,
                    old(self).scene(*shown).rendered()[i],
                ),
            forall|i: int|
                0 <= i < old(self).groups@.len() ==> #[trigger] frame.stale@[i] == (old(self).scene(
                    *shown,
                ).rendered()[i] && (old(self).groups@[i].size@ != old(self).size@ || !old(
                    self,
                ).groups@[i].allocated)),
    {
        let ghost sc = self.scene(*shown);
        let plan = self.plan_frame(shown);
        let mut buses: Vec<Command> = Vec::new();
        self.push_groups(&mut buses, shown, &plan);
        self.push_transition(&mut buses, shown, &plan);
        proof {
            assert(self.channels.len() == sc.cs.len() && self.groups.len() == sc.gs.len());
            lemma_master_steps(sc, sc.cs.len());
        }
        self.push_bus(&mut buses, Bus::Master, &plan.master, &self.master);
        let transition = match plan.decks {
            Some(Source::Transition) => true,
            _ => false,
        };
        let mut commands = self.draw_layers(shown, selects, inputs);
        commands.append(&mut buses);
        assert(commands@ =~= old(self).program(*shown, selects@, inputs as nat));
        let stale = self.apply_groups(&plan);
        assert forall|i: int| 0 <= i < old(self).groups@.len() implies #[trigger] stale@[i] == (
        sc.rendered()[i] && (old(self).groups@[i].size@ != old(self).size@ || !old(
            self,
        ).groups@[i].allocated)) by {
            assert(resources::group_after(
                old(self).groups@[i],
                self.groups@[i],
                old(self).size,
                plan.rendered@[i],
            ));
        }
        Frame { stale, transition, commands }
    }
}

/// A channel after a frame in which it contributed, or not.
pub open spec fn drawn<E, M>(c: Channel<E, M>, shown: bool) -> Channel<E, M> {
    if shown && has_output(c) {
        Channel { last_output: outcome(c.chain@), ..c }
    } else {
        c
    }
}

} // verus!
