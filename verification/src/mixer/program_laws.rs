//! Which draws a frame holds: each effect that is due once, each layer where it belongs.

use vstd::prelude::*;

use crate::mixer::draw;
use crate::mixer::draw::{Bus, Chain, Command, Inputs, Tex};
use crate::mixer::draw_laws::target_of;
use crate::mixer::frame::Shown;
use crate::mixer::frame_laws;
use crate::mixer::nesting;
use crate::mixer::nesting::{Item, Name};
use crate::mixer::nesting_laws;
use crate::mixer::params::Owner;
use crate::mixer::resources;
use crate::mixer::scene::{BlendStep, Scene, Source, StepKind};
use crate::mixer::types::{Channel, EffectSlot, InputSelect, LastOutput, Mixer};
use crate::order;

verus! {

/// How many of the draws are of that kind.
pub open spec fn count(cmds: Seq<Command>, p: spec_fn(Command) -> bool) -> nat
    decreases cmds.len(),
{
    if cmds.len() == 0 {
        0
    } else {
        count(cmds.drop_last(), p) + (if p(cmds.last()) {
            1nat
        } else {
            0
        })
    }
}

/// The draws of one effect.
pub open spec fn draw_of(owner: Owner) -> spec_fn(Command) -> bool {
    |c: Command| c matches Command::Draw { effect, .. } && effect == owner
}

/// The blends of one source into one bus.
pub open spec fn blend_of(into: Bus, from: Source) -> spec_fn(Command) -> bool {
    |c: Command| c matches Command::Blend { bus, step, .. } && bus == into && step.source == from
}

proof fn lemma_count_joined(a: Seq<Command>, b: Seq<Command>, p: spec_fn(Command) -> bool)
    ensures
        count(a + b, p) == count(a, p) + count(b, p),
    decreases b.len(),
{
    if b.len() == 0 {
        assert(a + b =~= a);
    } else {
        assert((a + b).drop_last() =~= a + b.drop_last());
        lemma_count_joined(a, b.drop_last(), p);
    }
}

proof fn lemma_count_none(cmds: Seq<Command>, p: spec_fn(Command) -> bool)
    requires
        forall|k: int| 0 <= k < cmds.len() ==> !p(#[trigger] cmds[k]),
    ensures
        count(cmds, p) == 0,
    decreases cmds.len(),
{
    if cmds.len() > 0 {
        assert forall|k: int| 0 <= k < cmds.len() - 1 implies !p(#[trigger] cmds.drop_last()[k]) by {
            assert(cmds.drop_last()[k] == cmds[k]);
        }
        lemma_count_none(cmds.drop_last(), p);
    }
}

proof fn lemma_count_one(cmds: Seq<Command>, p: spec_fn(Command) -> bool, k: int)
    requires
        0 <= k < cmds.len(),
        p(cmds[k]),
        forall|j: int| 0 <= j < cmds.len() && j != k ==> !p(#[trigger] cmds[j]),
    ensures
        count(cmds, p) == 1,
    decreases cmds.len(),
{
    let rest = cmds.drop_last();
    assert forall|j: int| 0 <= j < rest.len() && j != k implies !p(#[trigger] rest[j]) by {
        assert(rest[j] == cmds[j]);
    }
    if k == cmds.len() - 1 {
        lemma_count_none(rest, p);
    } else {
        lemma_count_one(rest, p, k);
        assert(!p(cmds[cmds.len() - 1]));
    }
}

/// Slot `s` of a chain draws once if it is enabled.
proof fn lemma_chain_draws<E>(
    chain: Chain,
    first: Tex,
    ping: Tex,
    slots: Seq<EffectSlot<E>>,
    owner: Owner,
    s: usize,
)
    requires
        slots.len() <= usize::MAX,
        forall|t: usize| (#[trigger] draw::slot_owner(chain, t) == owner) == (t == s),
    ensures
        count(
            draw::chain_commands(chain, first, ping, resources::passes_of(slots, slots.len())),
            draw_of(owner),
        ) == (if s < slots.len() && slots[s as int].enabled {
            1nat
        } else {
            0
        }),
{
    let passes = resources::passes_of(slots, slots.len());
    let cmds = draw::chain_commands(chain, first, ping, passes);
    let p = draw_of(owner);
    resources::law_enabled_effects_run_in_order(slots, slots.len());
    assert forall|k: int| 0 <= k < cmds.len() implies p(#[trigger] cmds[k]) == (passes[k].slot
        == s) by {
        assert(draw::slot_owner(chain, passes[k].slot) == owner || passes[k].slot != s);
    }
    if s < slots.len() && slots[s as int].enabled {
        let k = choose|k: int| 0 <= k < passes.len() && (#[trigger] passes[k]).slot == s as int;
        assert(p(cmds[k]));
        assert forall|j: int| 0 <= j < cmds.len() && j != k implies !p(#[trigger] cmds[j]) by {
            assert(passes[j].slot != passes[k].slot);
        }
        lemma_count_one(cmds, p, k);
    } else {
        lemma_count_none(cmds, p);
    }
}

proof fn lemma_chain_draws_no_other(
    chain: Chain,
    first: Tex,
    ping: Tex,
    passes: Seq<resources::ChainPass>,
    p: spec_fn(Command) -> bool,
)
    requires
        forall|t: usize, inputs: Inputs, target: Tex|
            !#[trigger] p(
                (Command::Draw { effect: draw::slot_owner(chain, t), inputs, target }),
            ),
    ensures
        count(draw::chain_commands(chain, first, ping, passes), p) == 0,
{
    let cmds = draw::chain_commands(chain, first, ping, passes);
    assert forall|k: int| 0 <= k < cmds.len() implies !p(#[trigger] cmds[k]) by {
        assert(cmds[k] == draw::pass_command(chain, first, ping, passes[k]));
    }
    lemma_count_none(cmds, p);
}

/// A bus draws no effects but those of its chain.
proof fn lemma_bus_draws<E, M>(
    m: Mixer<E, M>,
    bus: Bus,
    steps: Seq<BlendStep>,
    slots: Seq<EffectSlot<E>>,
    owner: Owner,
)
    ensures
        count(m.bus_commands(bus, steps, slots), draw_of(owner)) == count(
            draw::chain_commands(
                Chain::Bus(bus),
                draw::acc(bus, steps.len() % 2 == 0),
                Tex::Ping(bus),
                resources::passes_of(slots, slots.len()),
            ),
            draw_of(owner),
        ),
{
    let p = draw_of(owner);
    let composed = draw::acc(bus, steps.len() % 2 == 0);
    let clear = seq![Command::Clear { target: Tex::AccA(bus) }];
    let blends = m.blend_commands(bus, steps);
    let chain = draw::chain_commands(
        Chain::Bus(bus),
        composed,
        Tex::Ping(bus),
        resources::passes_of(slots, slots.len()),
    );
    let blit = seq![
        Command::Blit {
            from: draw::chain_result(composed, Tex::Ping(bus), draw::outcome(slots)),
            target: Tex::Out(bus),
        },
    ];
    assert(m.bus_commands(bus, steps, slots) =~= clear + blends + chain + blit);
    lemma_count_none(clear, p);
    lemma_count_none(blends, p);
    lemma_count_none(blit, p);
    lemma_count_joined(clear, blends, p);
    lemma_count_joined(clear + blends, chain, p);
    lemma_count_joined(clear + blends + chain, blit, p);
}

/// Whether a channel's effects draw this frame: it is shown and has textures.
pub open spec fn layer_draws<E, M>(m: Mixer<E, M>, shown: Shown, i: int) -> bool {
    0 <= i < m.channels@.len() && shown.layers@[i] && m.channels@[i].size@ != seq![0u32, 0u32]
}

/// How often the first `n` channels draw an effect.
proof fn lemma_layer_draws<E, M>(
    m: Mixer<E, M>,
    shown: Shown,
    selects: Seq<InputSelect>,
    inputs: nat,
    n: nat,
    owner: Owner,
)
    requires
        n <= m.channels@.len(),
    ensures
        count(
            draw::layer_commands(m.channels@, shown.layers@, selects, inputs, n),
            draw_of(owner),
        ) == (match owner {
            Owner::Channel { channel } => if channel < n && layer_draws(m, shown, channel as int) {
                1nat
            } else {
                0
            },
            Owner::ChannelSlot { channel, slot } => if channel < n && layer_draws(
                m,
                shown,
                channel as int,
            ) && slot < m.channels@[channel as int].chain@.len() && m.channels@[channel as int].chain@[slot as int].enabled {
                1
            } else {
                0
            },
            _ => 0,
        }),
    decreases n,
{
    let p = draw_of(owner);
    let cmds = draw::layer_commands(m.channels@, shown.layers@, selects, inputs, n);
    if n > 0 {
        let k = (n - 1) as nat;
        let before = draw::layer_commands(m.channels@, shown.layers@, selects, inputs, k);
        lemma_layer_draws(m, shown, selects, inputs, k, owner);
        let c = m.channels@[n - 1];
        assert(c.chain.len() == c.chain@.len());
        assert(m.channels.len() == m.channels@.len());
        if shown.layers@[n - 1] && draw::has_output(c) {
            let own = draw::channel_commands(c, n - 1, selects[n - 1], inputs);
            let effect = seq![own[0]];
            let first = draw::channel_tex(n - 1, LastOutput::Texture);
            let ping = draw::channel_tex(n - 1, LastOutput::Ping);
            let chain = Chain::Channel((n - 1) as usize);
            let passes = resources::passes_of(c.chain@, c.chain@.len());
            let rest = draw::chain_commands(chain, first, ping, passes);
            assert(own =~= effect + rest);
            lemma_count_joined(effect, rest, p);
            lemma_count_joined(before, own, p);
            if owner == (Owner::Channel { channel: (n - 1) as usize }) {
                lemma_count_one(effect, p, 0);
            } else {
                lemma_count_none(effect, p);
            }
            match owner {
                Owner::ChannelSlot { channel, slot } if channel == n - 1 => {
                    lemma_chain_draws(chain, first, ping, c.chain@, owner, slot);
                },
                _ => {
                    lemma_chain_draws_no_other(chain, first, ping, passes, p);
                },
            }
        } else {
            assert(cmds =~= before);
        }
    }
}

/// How often the groups draw an effect that is not a group's.
proof fn lemma_groups_draw_no_other<E, M>(m: Mixer<E, M>, sc: Scene, n: nat, owner: Owner)
    requires
        !(owner is GroupSlot),
    ensures
        count(m.group_commands(sc, n), draw_of(owner)) == 0,
    decreases n,
{
    if n > 0 {
        let k = (n - 1) as nat;
        lemma_groups_draw_no_other(m, sc, k, owner);
        let name = sc.gs[nesting::render_order(sc.gs)[n - 1]].uuid;
        let g = nesting::group_at(sc.gs, name)->0;
        if sc.composes(name) {
            let bus = Bus::Group(g as usize);
            let steps = sc.group_steps(name, k);
            let slots = m.groups@[g].chain@;
            lemma_bus_draws(m, bus, steps, slots, owner);
            lemma_chain_draws_no_other(
                Chain::Bus(bus),
                draw::acc(bus, steps.len() % 2 == 0),
                Tex::Ping(bus),
                resources::passes_of(slots, slots.len()),
                draw_of(owner),
            );
            lemma_count_joined(
                m.group_commands(sc, k),
                m.bus_commands(bus, steps, slots),
                draw_of(owner),
            );
        } else {
            assert(m.group_commands(sc, n) =~= m.group_commands(sc, k));
        }
    }
}

/// A frame's draws of an effect are those of its four parts together.
proof fn lemma_parts<E, M>(
    m: Mixer<E, M>,
    shown: Shown,
    selects: Seq<InputSelect>,
    inputs: nat,
    p: spec_fn(Command) -> bool,
)
    ensures
        ({
            let sc = m.scene(shown);
            count(m.program(shown, selects, inputs), p) == count(
                draw::layer_commands(
                    m.channels@,
                    shown.layers@,
                    selects,
                    inputs,
                    m.channels@.len(),
                ),
                p,
            ) + count(m.group_commands(sc, m.groups@.len()), p) + count(
                m.transition_commands(sc),
                p,
            ) + count(
                m.bus_commands(Bus::Master, sc.master_steps(m.channels@.len()), m.master@),
                p,
            )
        }),
{
    let sc = m.scene(shown);
    let a = draw::layer_commands(m.channels@, shown.layers@, selects, inputs, m.channels@.len());
    let b = m.group_commands(sc, m.groups@.len());
    let c = m.transition_commands(sc);
    let d = m.bus_commands(Bus::Master, sc.master_steps(m.channels@.len()), m.master@);
    lemma_count_joined(a, b, p);
    lemma_count_joined(a + b, c, p);
    lemma_count_joined(a + b + c, d, p);
}

/// The master's part draws slot `s` of the master chain if it is enabled, and nothing else.
proof fn lemma_master_draws<E, M>(m: Mixer<E, M>, steps: Seq<BlendStep>, owner: Owner)
    ensures
        count(m.bus_commands(Bus::Master, steps, m.master@), draw_of(owner)) == (match owner {
            Owner::MasterSlot { slot } => if slot < m.master@.len()
                && m.master@[slot as int].enabled {
                1nat
            } else {
                0
            },
            _ => 0,
        }),
{
    let first = draw::acc(Bus::Master, steps.len() % 2 == 0);
    let ping = Tex::Ping(Bus::Master);
    let chain = Chain::Bus(Bus::Master);
    assert(m.master.len() == m.master@.len());
    lemma_bus_draws(m, Bus::Master, steps, m.master@, owner);
    match owner {
        Owner::MasterSlot { slot } => {
            lemma_chain_draws(chain, first, ping, m.master@, owner, slot);
        },
        _ => {
            lemma_chain_draws_no_other(
                chain,
                first,
                ping,
                resources::passes_of(m.master@, m.master@.len()),
                draw_of(owner),
            );
        },
    }
}

/// Where the decks are combined by the transition, a frame holds exactly one draw of it,
/// and that one samples the image of the first deck's group, then that of the second
/// deck's, and draws into the transition's own texture. Elsewhere the transition does not
/// draw.
pub proof fn law_transition_combines_the_decks<E, M>(
    m: Mixer<E, M>,
    shown: Shown,
    selects: Seq<InputSelect>,
    inputs: nat,
)
    ensures
        m.scene(shown).deck_source() != Some(Source::Transition) ==> count(
            m.program(shown, selects, inputs),
            draw_of(Owner::Transition),
        ) == 0,
        m.scene(shown).deck_source() == Some(Source::Transition) ==> {
            let cmds = m.program(shown, selects, inputs);
            &&& count(cmds, draw_of(Owner::Transition)) == 1
            &&& exists|i: usize, j: usize|
                i < m.groups@.len() && j < m.groups@.len() && (
                #[trigger] m.groups@[i as int]).uuid@ == m.decks->0@[0]@ && (
                #[trigger] m.groups@[j as int]).uuid@ == m.decks->0@[1]@ && cmds.contains(
                    (Command::Draw {
                        effect: Owner::Transition,
                        inputs: Inputs::Two(Tex::Out(Bus::Group(i)), Tex::Out(Bus::Group(j))),
                        target: Tex::Transition,
                    }),
                )
        },
{
    let p = draw_of(Owner::Transition);
    let sc = m.scene(shown);
    let layers = draw::layer_commands(
        m.channels@,
        shown.layers@,
        selects,
        inputs,
        m.channels@.len(),
    );
    let groups = m.group_commands(sc, m.groups@.len());
    let steps = sc.master_steps(m.channels@.len());
    let own = m.transition_commands(sc);
    lemma_layer_draws(m, shown, selects, inputs, m.channels@.len(), Owner::Transition);
    lemma_groups_draw_no_other(m, sc, m.groups@.len(), Owner::Transition);
    lemma_master_draws(m, steps, Owner::Transition);
    lemma_parts(m, shown, selects, inputs, p);
    if sc.deck_source() == Some(Source::Transition) {
        let d = sc.decks->0;
        nesting::lemma_group_at(sc.gs, d.0);
        nesting::lemma_group_at(sc.gs, d.1);
        assert(m.groups.len() == m.groups@.len());
        let i = nesting::group_at(sc.gs, d.0)->0 as usize;
        let j = nesting::group_at(sc.gs, d.1)->0 as usize;
        lemma_count_one(own, p, 0);
        let cmds = m.program(shown, selects, inputs);
        let k = (layers + groups).len() as int;
        assert(cmds[k] == own[0]);
        assert(m.groups@[i as int].uuid@ == sc.gs[i as int].uuid);
        assert(m.groups@[j as int].uuid@ == sc.gs[j as int].uuid);
        assert(cmds[k] == (Command::Draw {
            effect: Owner::Transition,
            inputs: Inputs::Two(Tex::Out(Bus::Group(i)), Tex::Out(Bus::Group(j))),
            target: Tex::Transition,
        }));
    } else {
        lemma_count_none(own, p);
    }
}

/// How often the first `n` groups of the render order draw a slot of group `g`.
proof fn lemma_group_draws<E, M>(
    m: Mixer<E, M>,
    shown: Shown,
    n: nat,
    g: usize,
    slot: usize,
)
    requires
        frame_laws::distinct_groups(m.group_infos()),
        n <= m.groups@.len(),
    ensures
        ({
            let sc = m.scene(shown);
            count(
                m.group_commands(sc, n),
                draw_of(Owner::GroupSlot { group: g, slot }),
            ) == (if nesting::render_order(sc.gs).take(n as int).contains(g as int) && sc.composes(
                sc.gs[g as int].uuid,
            ) && slot < m.groups@[g as int].chain@.len()
                && m.groups@[g as int].chain@[slot as int].enabled {
                1nat
            } else {
                0
            })
        }),
    decreases n,
{
    let sc = m.scene(shown);
    let owner = Owner::GroupSlot { group: g, slot };
    let p = draw_of(owner);
    let ord = nesting::render_order(sc.gs);
    order::law_stable_order(nesting::render_keys(sc.gs));
    if n > 0 {
        let k = (n - 1) as nat;
        lemma_group_draws(m, shown, k, g, slot);
        let at = ord[n - 1];
        let name = sc.gs[at].uuid;
        frame_laws::lemma_own_place(sc.gs, at);
        assert(m.groups.len() == m.groups@.len());
        let less = ord.take(k as int);
        let more = ord.take(n as int);
        assert(more =~= less.push(at));
        if less.contains(g as int) {
            let a = choose|a: int| 0 <= a < less.len() && less[a] == g as int;
            assert(more[a] == g as int);
            assert(ord[a] == g as int && ord[n - 1] == at);
        }
        if at == g as int {
            assert(more[n - 1] == g as int);
        }
        if more.contains(g as int) && at != g as int {
            let a = choose|a: int| 0 <= a < more.len() && more[a] == g as int;
            assert(less[a] == g as int);
        }
        if sc.composes(name) {
            let bus = Bus::Group(at as usize);
            let steps = sc.group_steps(name, k);
            let slots = m.groups@[at].chain@;
            let first = draw::acc(bus, steps.len() % 2 == 0);
            assert(m.groups@[at].chain.len() == slots.len());
            lemma_bus_draws(m, bus, steps, slots, owner);
            lemma_count_joined(m.group_commands(sc, k), m.bus_commands(bus, steps, slots), p);
            if at == g as int {
                lemma_chain_draws(Chain::Bus(bus), first, Tex::Ping(bus), slots, owner, slot);
            } else {
                lemma_chain_draws_no_other(
                    Chain::Bus(bus),
                    first,
                    Tex::Ping(bus),
                    resources::passes_of(slots, slots.len()),
                    p,
                );
            }
        } else {
            assert(m.group_commands(sc, n) =~= m.group_commands(sc, k));
        }
    }
}

/// Every effect that is due draws exactly once in a frame, and no other draws at all: a
/// shown channel's own effect and the enabled slots of its chain, once it has textures;
/// the enabled slots of each group that is composited; the enabled slots of the master.
pub proof fn law_each_effect_draws_once<E, M>(
    m: Mixer<E, M>,
    shown: Shown,
    selects: Seq<InputSelect>,
    inputs: nat,
    owner: Owner,
)
    requires
        frame_laws::distinct_groups(m.group_infos()),
        owner != Owner::Transition,
    ensures
        count(m.program(shown, selects, inputs), draw_of(owner)) == (if match owner {
            Owner::Channel { channel } => layer_draws(m, shown, channel as int),
            Owner::ChannelSlot { channel, slot } => {
                &&& layer_draws(m, shown, channel as int)
                &&& slot < m.channels@[channel as int].chain@.len()
                &&& m.channels@[channel as int].chain@[slot as int].enabled
            },
            Owner::GroupSlot { group, slot } => {
                &&& group < m.groups@.len()
                &&& m.scene(shown).composes(m.groups@[group as int].uuid@)
                &&& slot < m.groups@[group as int].chain@.len()
                &&& m.groups@[group as int].chain@[slot as int].enabled
            },
            Owner::MasterSlot { slot } => slot < m.master@.len()
                && m.master@[slot as int].enabled,
            Owner::Transition => false,
        } {
            1nat
        } else {
            0
        }),
{
    let sc = m.scene(shown);
    let p = draw_of(owner);
    lemma_parts(m, shown, selects, inputs, p);
    lemma_layer_draws(m, shown, selects, inputs, m.channels@.len(), owner);
    lemma_master_draws(m, sc.master_steps(m.channels@.len()), owner);
    lemma_count_none(m.transition_commands(sc), p);
    if let Owner::GroupSlot { group, slot } = owner {
        lemma_group_draws(m, shown, m.groups@.len(), group, slot);
        let ord = nesting::render_order(sc.gs);
        order::law_stable_order(nesting::render_keys(sc.gs));
        assert(ord.take(m.groups@.len() as int) =~= ord);
        if group < m.groups@.len() {
            assert(ord.contains(group as int));
        }
    } else {
        lemma_groups_draw_no_other(m, sc, m.groups@.len(), owner);
    }
}

/// The texture that a draw builds upon: what an effect of a chain samples, what a blend
/// lies over, what a copy copies.
pub open spec fn builds_on(c: Command) -> Option<Tex> {
    match c {
        Command::Draw { inputs: Inputs::One(t), .. } => Some(t),
        Command::Blend { under, .. } => Some(under),
        Command::Blit { from, .. } => Some(from),
        _ => None,
    }
}

/// A bus starts from a cleared accumulator, each of its draws builds on the texture that
/// the one before it wrote, and the last copies the result into the bus's image.
pub proof fn law_bus_builds_up<E, M>(
    m: Mixer<E, M>,
    bus: Bus,
    steps: Seq<BlendStep>,
    slots: Seq<EffectSlot<E>>,
)
    requires
        slots.len() <= usize::MAX,
        forall|k: int| 0 <= k < steps.len() ==> (#[trigger] steps[k]).dest_is_a == (k % 2 == 0),
    ensures
        ({
            let cmds = m.bus_commands(bus, steps, slots);
            &&& cmds.len() >= 2
            &&& cmds[0] == (Command::Clear { target: Tex::AccA(bus) })
            &&& cmds.last() is Blit && target_of(cmds.last()) == Tex::Out(bus)
            &&& forall|k: int|
                0 < k < cmds.len() ==> builds_on(#[trigger] cmds[k]) == Some(
                    target_of(cmds[k - 1]),
                )
            &&& forall|k: int|
                0 <= k < steps.len() ==> (cmds[k + 1] matches Command::Blend { bus: into, step, .. }
                    && into == bus && step == #[trigger] steps[k])
        }),
{
    let cmds = m.bus_commands(bus, steps, slots);
    let composed = draw::acc(bus, steps.len() % 2 == 0);
    let passes = resources::passes_of(slots, slots.len());
    let chain = draw::chain_commands(Chain::Bus(bus), composed, Tex::Ping(bus), passes);
    resources::law_chain_hands_on(slots, slots.len());
    assert(cmds.len() == steps.len() + passes.len() + 2);
    assert forall|k: int| 0 <= k < steps.len() implies #[trigger] cmds[k + 1] == m.blend_command(
        bus,
        steps[k],
    ) by {}
    assert forall|k: int| 0 <= k < passes.len() implies #[trigger] cmds[k + 1 + steps.len()]
        == draw::pass_command(Chain::Bus(bus), composed, Tex::Ping(bus), passes[k]) by {
        assert(cmds[k + 1 + steps.len()] == chain[k]);
    }
    assert forall|k: int| 0 < k < cmds.len() implies builds_on(#[trigger] cmds[k]) == Some(
        target_of(cmds[k - 1]),
    ) by {
        if k <= steps.len() {
            assert(steps[k - 1].dest_is_a == ((k - 1) % 2 == 0));
            assert(cmds[(k - 1) + 1] == m.blend_command(bus, steps[k - 1]));
            if k >= 2 {
                assert(steps[k - 2].dest_is_a == ((k - 2) % 2 == 0));
                assert(cmds[(k - 2) + 1] == m.blend_command(bus, steps[k - 2]));
            }
        } else {
            let at = k - 1 - steps.len();
            if at < passes.len() {
                assert(cmds[at + 1 + steps.len()] == draw::pass_command(
                    Chain::Bus(bus),
                    composed,
                    Tex::Ping(bus),
                    passes[at],
                ));
                assert(passes[at].reads_ping == (at % 2 == 1));
            }
            if at > 0 {
                assert(cmds[(at - 1) + 1 + steps.len()] == draw::pass_command(
                    Chain::Bus(bus),
                    composed,
                    Tex::Ping(bus),
                    passes[at - 1],
                ));
                assert(passes[at - 1].reads_ping == ((at - 1) % 2 == 1));
            } else if steps.len() > 0 {
                let last = steps.len() - 1;
                assert(steps[last].dest_is_a == (last % 2 == 0));
                assert(cmds[last + 1] == m.blend_command(bus, steps[last]));
            }
        }
    }
    assert forall|k: int| 0 <= k < steps.len() implies (cmds[k + 1] matches Command::Blend {
        bus: into,
        step,
        ..
    } && into == bus && step == #[trigger] steps[k]) by {
        assert(cmds[k + 1] == m.blend_command(bus, steps[k]));
    }
}

/// A channel's own effect samples the engine's inputs that the channel selects and draws
/// into its first texture; each effect of its chain builds on what the one before it drew;
/// and whoever blends the channel samples what the last of them drew.
pub proof fn law_layer_builds_up<E, M>(
    m: Mixer<E, M>,
    i: usize,
    select: InputSelect,
    inputs: usize,
)
    requires
        i < m.channels@.len(),
        m.channels@[i as int].size@ != seq![0u32, 0u32],
    ensures
        ({
            let cmds = draw::channel_commands(
                m.channels@[i as int],
                i as int,
                select,
                inputs as nat,
            );
            &&& cmds.len() >= 1
            &&& cmds[0] matches Command::Draw { effect, inputs: Inputs::Engine { from, to }, target }
                && effect == (Owner::Channel { channel: i }) && target == (Tex::Channel {
                channel: i,
                ping: false,
            }) && forall|at: usize| #[trigger] handed(select, inputs, at) <==> from <= at < to
            &&& forall|k: int|
                0 < k < cmds.len() ==> builds_on(#[trigger] cmds[k]) == Some(
                    target_of(cmds[k - 1]),
                )
            &&& m.source_tex(Source::Channel(i)) == target_of(cmds.last())
        }),
{
    let c = m.channels@[i as int];
    let cmds = draw::channel_commands(c, i as int, select, inputs as nat);
    let first = draw::channel_tex(i as int, LastOutput::Texture);
    let ping = draw::channel_tex(i as int, LastOutput::Ping);
    let passes = resources::passes_of(c.chain@, c.chain@.len());
    let chain = draw::chain_commands(Chain::Channel(i), first, ping, passes);
    assert(c.chain.len() == c.chain@.len());
    resources::law_chain_hands_on(c.chain@, c.chain@.len());
    assert forall|k: int| 0 <= k < passes.len() implies #[trigger] cmds[k + 1]
        == draw::pass_command(Chain::Channel(i), first, ping, passes[k]) by {
        assert(cmds[k + 1] == chain[k]);
    }
    assert forall|k: int| 0 < k < cmds.len() implies builds_on(#[trigger] cmds[k]) == Some(
        target_of(cmds[k - 1]),
    ) by {
        assert(cmds[(k - 1) + 1] == draw::pass_command(
            Chain::Channel(i),
            first,
            ping,
            passes[k - 1],
        ));
        assert(passes[k - 1].reads_ping == ((k - 1) % 2 == 1));
        if k >= 2 {
            assert(cmds[(k - 2) + 1] == draw::pass_command(
                Chain::Channel(i),
                first,
                ping,
                passes[k - 2],
            ));
            assert(passes[k - 2].reads_ping == ((k - 2) % 2 == 1));
        }
    }
    if passes.len() > 0 {
        let last = passes.len() - 1;
        assert(cmds[last + 1] == draw::pass_command(Chain::Channel(i), first, ping, passes[last]));
    }
}

/// Whether a selection hands input number `at` to a channel.
pub open spec fn handed(select: InputSelect, inputs: usize, at: usize) -> bool {
    at < inputs && match select {
        InputSelect::Slot1 => at == 0,
        InputSelect::Slot2 => at == 1,
        InputSelect::Both => true,
    }
}

/// What the master's steps are: one for each channel at which the master blends
/// something, in stack order.
proof fn lemma_master_steps_are(sc: Scene, n: nat)
    requires
        n <= sc.cs.len() <= usize::MAX,
    ensures
        forall|k: int|
            0 <= k < sc.master_steps(n).len() ==> (#[trigger] sc.master_steps(n)[k]).slot < n
                && sc.master_source(sc.master_steps(n)[k].slot as int) == Some(
                (sc.master_steps(n)[k].source, sc.master_steps(n)[k].kind),
            ),
        forall|j: int, k: int|
            0 <= j < k < sc.master_steps(n).len() ==> (#[trigger] sc.master_steps(n)[j]).slot < (
            #[trigger] sc.master_steps(n)[k]).slot,
        forall|i: int|
            0 <= i < n && (#[trigger] sc.master_source(i)) is Some ==> exists|k: int|
                0 <= k < sc.master_steps(n).len() && (#[trigger] sc.master_steps(n)[k]).slot == i,
    decreases n,
{
    if n > 0 {
        let m = (n - 1) as nat;
        let before = sc.master_steps(m);
        let all = sc.master_steps(n);
        lemma_master_steps_are(sc, m);
        assert forall|k: int| 0 <= k < before.len() implies #[trigger] all[k] == before[k] by {}
        assert forall|k: int| 0 <= k < all.len() implies (#[trigger] all[k]).slot < n
            && sc.master_source(all[k].slot as int) == Some((all[k].source, all[k].kind)) by {
            if k < before.len() {
                assert(all[k] == before[k]);
            }
        }
        assert forall|j: int, k: int| 0 <= j < k < all.len() implies (#[trigger] all[j]).slot < (
        #[trigger] all[k]).slot by {
            assert(all[j] == before[j]);
            assert(before[j].slot < m);
            if k < before.len() {
                assert(all[k] == before[k]);
            }
        }
        assert forall|i: int| 0 <= i < n && (#[trigger] sc.master_source(i)) is Some implies exists|
            k: int,
        |
            0 <= k < all.len() && (#[trigger] all[k]).slot == i by {
            if i < m {
                let k = choose|k: int| 0 <= k < before.len() && (#[trigger] before[k]).slot == i;
                assert(all[k].slot == i);
            } else {
                assert(all[all.len() - 1].slot == i);
            }
        }
    }
}

/// The master blends in stack order, the bottom layer first, one blend at most for each
/// channel: what belongs at that channel, with the settings that go with it. The
/// accumulators take turns, the first one below the first blend.
pub proof fn law_master_blends_in_stack_order(sc: Scene)
    requires
        sc.cs.len() <= usize::MAX,
        sc.gs.len() <= usize::MAX,
    ensures
        ({
            let steps = sc.master_steps(sc.cs.len());
            &&& forall|j: int, k: int|
                0 <= j < k < steps.len() ==> (#[trigger] steps[j]).slot < (#[trigger] steps[k]).slot
            &&& forall|k: int|
                0 <= k < steps.len() ==> (#[trigger] steps[k]).dest_is_a == (k % 2 == 0)
            &&& forall|k: int|
                0 <= k < steps.len() ==> (#[trigger] steps[k]).slot < sc.cs.len()
                    && sc.master_source(steps[k].slot as int) == Some(
                    (steps[k].source, steps[k].kind),
                )
            &&& forall|i: int|
                0 <= i < sc.cs.len() && (#[trigger] sc.master_source(i)) is Some ==> exists|k: int|
                    0 <= k < steps.len() && (#[trigger] steps[k]).slot == i
        }),
{
    lemma_master_steps_are(sc, sc.cs.len());
    draw::lemma_master_steps(sc, sc.cs.len());
}

/// What a group's steps are: one for each item that contributes, in order.
proof fn lemma_item_steps_are(sc: Scene, rendered: Seq<bool>, items: Seq<Item>, n: nat)
    requires
        n <= items.len() <= usize::MAX,
    ensures
        forall|k: int|
            0 <= k < sc.item_steps(rendered, items, n).len() ==> {
                let s = #[trigger] sc.item_steps(rendered, items, n)[k];
                s.slot < n && sc.item_source(rendered, items[s.slot as int]) == Some(s.source)
            },
        forall|j: int, k: int|
            0 <= j < k < sc.item_steps(rendered, items, n).len() ==> (#[trigger] sc.item_steps(
                rendered,
                items,
                n,
            )[j]).slot < (#[trigger] sc.item_steps(rendered, items, n)[k]).slot,
        forall|i: int|
            0 <= i < n && sc.item_source(rendered, #[trigger] items[i]) is Some ==> exists|k: int|
                0 <= k < sc.item_steps(rendered, items, n).len() && (#[trigger] sc.item_steps(
                    rendered,
                    items,
                    n,
                )[k]).slot == i,
        forall|k: int|
            0 <= k < sc.item_steps(rendered, items, n).len() ==> {
                let s = #[trigger] sc.item_steps(rendered, items, n)[k];
                s.kind == (if s.source is Channel {
                    StepKind::Layer
                } else {
                    StepKind::Group
                })
            },
    decreases n,
{
    if n > 0 {
        let m = (n - 1) as nat;
        let before = sc.item_steps(rendered, items, m);
        let all = sc.item_steps(rendered, items, n);
        lemma_item_steps_are(sc, rendered, items, m);
        assert forall|k: int| 0 <= k < before.len() implies #[trigger] all[k] == before[k] by {}
        assert forall|k: int| 0 <= k < all.len() implies {
            let s = #[trigger] all[k];
            &&& s.slot < n
            &&& sc.item_source(rendered, items[s.slot as int]) == Some(s.source)
            &&& s.kind == (if s.source is Channel {
                StepKind::Layer
            } else {
                StepKind::Group
            })
        } by {
            if k < before.len() {
                assert(all[k] == before[k]);
            }
        }
        assert forall|j: int, k: int| 0 <= j < k < all.len() implies (#[trigger] all[j]).slot < (
        #[trigger] all[k]).slot by {
            assert(all[j] == before[j]);
            assert(before[j].slot < m);
            if k < before.len() {
                assert(all[k] == before[k]);
            }
        }
        assert forall|i: int|
            0 <= i < n && sc.item_source(rendered, #[trigger] items[i]) is Some implies exists|
            k: int,
        |
            0 <= k < all.len() && (#[trigger] all[k]).slot == i by {
            if i < m {
                let k = choose|k: int| 0 <= k < before.len() && (#[trigger] before[k]).slot == i;
                assert(all[k].slot == i);
            } else {
                assert(all[all.len() - 1].slot == i);
            }
        }
    }
}

/// A bus blends only into itself, and only in its steps.
proof fn lemma_bus_blends<E, M>(
    m: Mixer<E, M>,
    bus: Bus,
    steps: Seq<BlendStep>,
    slots: Seq<EffectSlot<E>>,
    into: Bus,
    from: Source,
)
    ensures
        count(m.bus_commands(bus, steps, slots), blend_of(into, from)) == (if bus == into {
            count(m.blend_commands(bus, steps), blend_of(into, from))
        } else {
            0
        }),
{
    let p = blend_of(into, from);
    let composed = draw::acc(bus, steps.len() % 2 == 0);
    let clear = seq![Command::Clear { target: Tex::AccA(bus) }];
    let blends = m.blend_commands(bus, steps);
    let chain = draw::chain_commands(
        Chain::Bus(bus),
        composed,
        Tex::Ping(bus),
        resources::passes_of(slots, slots.len()),
    );
    let blit = seq![
        Command::Blit {
            from: draw::chain_result(composed, Tex::Ping(bus), draw::outcome(slots)),
            target: Tex::Out(bus),
        },
    ];
    assert(m.bus_commands(bus, steps, slots) =~= clear + blends + chain + blit);
    lemma_count_none(clear, p);
    lemma_chain_draws_no_other(
        Chain::Bus(bus),
        composed,
        Tex::Ping(bus),
        resources::passes_of(slots, slots.len()),
        p,
    );
    lemma_count_none(blit, p);
    if bus != into {
        lemma_count_none(blends, p);
    }
    lemma_count_joined(clear, blends, p);
    lemma_count_joined(clear + blends, chain, p);
    lemma_count_joined(clear + blends + chain, blit, p);
}

/// Steps with one of a source blend it once, steps without it not at all.
proof fn lemma_steps_blend<E, M>(
    m: Mixer<E, M>,
    bus: Bus,
    steps: Seq<BlendStep>,
    from: Source,
    found: bool,
)
    requires
        forall|j: int, k: int|
            0 <= j < steps.len() && 0 <= k < steps.len() && (#[trigger] steps[j]).source == from && (
            #[trigger] steps[k]).source == from ==> j == k,
        found == exists|k: int| 0 <= k < steps.len() && (#[trigger] steps[k]).source == from,
    ensures
        count(m.blend_commands(bus, steps), blend_of(bus, from)) == (if found {
            1nat
        } else {
            0
        }),
{
    let p = blend_of(bus, from);
    let cmds = m.blend_commands(bus, steps);
    assert forall|k: int| 0 <= k < cmds.len() implies p(#[trigger] cmds[k]) == (steps[k].source
        == from) by {
        assert(cmds[k] == m.blend_command(bus, steps[k]));
    }
    if found {
        let k = choose|k: int| 0 <= k < steps.len() && (#[trigger] steps[k]).source == from;
        assert(p(cmds[k]));
        assert forall|j: int| 0 <= j < cmds.len() && j != k implies !p(#[trigger] cmds[j]) by {
            assert(steps[j].source != from);
        }
        lemma_count_one(cmds, p, k);
    } else {
        assert forall|j: int| 0 <= j < cmds.len() implies !p(#[trigger] cmds[j]) by {
            assert(steps[j].source != from);
        }
        lemma_count_none(cmds, p);
    }
}

/// The layers' part blends nothing.
proof fn lemma_layers_blend_nothing<E, M>(
    channels: Seq<Channel<E, M>>,
    layers: Seq<bool>,
    selects: Seq<InputSelect>,
    inputs: nat,
    n: nat,
    into: Bus,
    from: Source,
)
    ensures
        count(
            draw::layer_commands(channels, layers, selects, inputs, n),
            blend_of(into, from),
        ) == 0,
    decreases n,
{
    let p = blend_of(into, from);
    if n > 0 {
        let k = (n - 1) as nat;
        lemma_layers_blend_nothing(channels, layers, selects, inputs, k, into, from);
        let own = if layers[n - 1] {
            draw::channel_commands(channels[n - 1], n - 1, selects[n - 1], inputs)
        } else {
            Seq::empty()
        };
        lemma_count_none(own, p);
        lemma_count_joined(draw::layer_commands(channels, layers, selects, inputs, k), own, p);
    }
}

/// The groups' part blends into group `g` when its turn comes, if it is composited.
proof fn lemma_group_blends<E, M>(
    m: Mixer<E, M>,
    shown: Shown,
    n: nat,
    g: usize,
    b: nat,
    from: Source,
)
    requires
        frame_laws::distinct_groups(m.group_infos()),
        n <= m.groups@.len(),
        b < m.groups@.len(),
        nesting::render_order(m.scene(shown).gs)[b as int] == g,
    ensures
        ({
            let sc = m.scene(shown);
            let name = sc.gs[g as int].uuid;
            count(m.group_commands(sc, n), blend_of(Bus::Group(g), from)) == (if b < n
                && sc.composes(name) {
                count(
                    m.blend_commands(Bus::Group(g), sc.group_steps(name, b)),
                    blend_of(Bus::Group(g), from),
                )
            } else {
                0
            })
        }),
    decreases n,
{
    let sc = m.scene(shown);
    let p = blend_of(Bus::Group(g), from);
    let ord = nesting::render_order(sc.gs);
    order::law_stable_order(nesting::render_keys(sc.gs));
    if n > 0 {
        let k = (n - 1) as nat;
        lemma_group_blends(m, shown, k, g, b, from);
        let at = ord[n - 1];
        let name = sc.gs[at].uuid;
        frame_laws::lemma_own_place(sc.gs, at);
        assert(m.groups.len() == m.groups@.len());
        assert(at == g as int <==> k == b) by {
            assert(ord[b as int] == g as int);
        }
        if sc.composes(name) {
            let bus = Bus::Group(at as usize);
            let steps = sc.group_steps(name, k);
            let slots = m.groups@[at].chain@;
            lemma_bus_blends(m, bus, steps, slots, Bus::Group(g), from);
            lemma_count_joined(m.group_commands(sc, k), m.bus_commands(bus, steps, slots), p);
        } else {
            assert(m.group_commands(sc, n) =~= m.group_commands(sc, k));
        }
    }
}

/// The groups' part blends nothing into the master.
proof fn lemma_groups_leave_the_master<E, M>(m: Mixer<E, M>, sc: Scene, n: nat, from: Source)
    ensures
        count(m.group_commands(sc, n), blend_of(Bus::Master, from)) == 0,
    decreases n,
{
    if n > 0 {
        let k = (n - 1) as nat;
        lemma_groups_leave_the_master(m, sc, k, from);
        let name = sc.gs[nesting::render_order(sc.gs)[n - 1]].uuid;
        let g = nesting::group_at(sc.gs, name)->0;
        if sc.composes(name) {
            let bus = Bus::Group(g as usize);
            let steps = sc.group_steps(name, k);
            let slots = m.groups@[g].chain@;
            lemma_bus_blends(m, bus, steps, slots, Bus::Master, from);
            lemma_count_joined(
                m.group_commands(sc, k),
                m.bus_commands(bus, steps, slots),
                blend_of(Bus::Master, from),
            );
        } else {
            assert(m.group_commands(sc, n) =~= m.group_commands(sc, k));
        }
    }
}

/// A frame's blends into the master are those of the master's steps.
proof fn lemma_master_blends<E, M>(
    m: Mixer<E, M>,
    shown: Shown,
    selects: Seq<InputSelect>,
    inputs: nat,
    from: Source,
)
    ensures
        count(m.program(shown, selects, inputs), blend_of(Bus::Master, from)) == count(
            m.blend_commands(Bus::Master, m.scene(shown).master_steps(m.channels@.len())),
            blend_of(Bus::Master, from),
        ),
{
    let sc = m.scene(shown);
    let p = blend_of(Bus::Master, from);
    lemma_parts(m, shown, selects, inputs, p);
    lemma_layers_blend_nothing(
        m.channels@,
        shown.layers@,
        selects,
        inputs,
        m.channels@.len(),
        Bus::Master,
        from,
    );
    lemma_groups_leave_the_master(m, sc, m.groups@.len(), from);
    lemma_count_none(m.transition_commands(sc), p);
    lemma_bus_blends(
        m,
        Bus::Master,
        sc.master_steps(m.channels@.len()),
        m.master@,
        Bus::Master,
        from,
    );
}

/// A frame's blends into a group are those of the group's steps, if it is composited.
proof fn lemma_frame_group_blends<E, M>(
    m: Mixer<E, M>,
    shown: Shown,
    selects: Seq<InputSelect>,
    inputs: nat,
    g: usize,
    from: Source,
) -> (b: nat)
    requires
        frame_laws::distinct_groups(m.group_infos()),
        g < m.groups@.len(),
    ensures
        b < m.groups@.len(),
        nesting::render_order(m.scene(shown).gs)[b as int] == g,
        ({
            let sc = m.scene(shown);
            let name = sc.gs[g as int].uuid;
            count(m.program(shown, selects, inputs), blend_of(Bus::Group(g), from)) == (
            if sc.composes(name) {
                count(
                    m.blend_commands(Bus::Group(g), sc.group_steps(name, b)),
                    blend_of(Bus::Group(g), from),
                )
            } else {
                0
            })
        }),
{
    let sc = m.scene(shown);
    let p = blend_of(Bus::Group(g), from);
    let ord = nesting::render_order(sc.gs);
    order::law_stable_order(nesting::render_keys(sc.gs));
    assert(ord.contains(g as int));
    let b = choose|b: int| 0 <= b < ord.len() && ord[b] == g as int;
    lemma_parts(m, shown, selects, inputs, p);
    lemma_layers_blend_nothing(
        m.channels@,
        shown.layers@,
        selects,
        inputs,
        m.channels@.len(),
        Bus::Group(g),
        from,
    );
    lemma_group_blends(m, shown, m.groups@.len(), g, b as nat, from);
    lemma_count_none(m.transition_commands(sc), p);
    lemma_bus_blends(
        m,
        Bus::Master,
        sc.master_steps(m.channels@.len()),
        m.master@,
        Bus::Group(g),
        from,
    );
    b as nat
}

/// A shown layer outside all groups is blended into the master exactly once; no other
/// layer is blended there by itself.
pub proof fn law_layer_joins_the_master<E, M>(
    m: Mixer<E, M>,
    shown: Shown,
    selects: Seq<InputSelect>,
    inputs: nat,
    i: usize,
)
    ensures
        count(
            m.program(shown, selects, inputs),
            blend_of(Bus::Master, Source::Channel(i)),
        ) == (if i < m.channels@.len() && shown.layers@[i as int] && m.channels@[i as int].group
            is None {
            1nat
        } else {
            0
        }),
{
    let sc = m.scene(shown);
    let from = Source::Channel(i);
    let steps = sc.master_steps(m.channels@.len());
    assert(m.channels.len() == m.channels@.len());
    lemma_master_blends(m, shown, selects, inputs, from);
    lemma_master_steps_are(sc, sc.cs.len());
    assert forall|k: int| 0 <= k < steps.len() && (#[trigger] steps[k]).source == from implies
        steps[k].slot == i && sc.layers[i as int] && sc.cs[i as int].group is None by {
        frame_laws::law_ungrouped_layer_joins_the_master(sc, steps[k].slot as int);
    }
    if i < sc.cs.len() && sc.layers[i as int] && sc.cs[i as int].group is None {
        frame_laws::law_ungrouped_layer_joins_the_master(sc, i as int);
        let k = choose|k: int| 0 <= k < steps.len() && (#[trigger] steps[k]).slot == i as int;
        assert(steps[k].source == from);
    }
    let found = exists|k: int| 0 <= k < steps.len() && (#[trigger] steps[k]).source == from;
    assert forall|j: int, k: int|
        0 <= j < steps.len() && 0 <= k < steps.len() && (#[trigger] steps[j]).source == from && (
        #[trigger] steps[k]).source == from implies j == k by {}
    lemma_steps_blend(m, Bus::Master, steps, from, found);
}

/// A shown layer of a group that is composited is blended into that group exactly once,
/// and into no other group.
#[verifier::rlimit(40)]
pub proof fn law_layer_joins_its_group<E, M>(
    m: Mixer<E, M>,
    shown: Shown,
    selects: Seq<InputSelect>,
    inputs: nat,
    g: usize,
    i: usize,
)
    requires
        frame_laws::distinct_groups(m.group_infos()),
        g < m.groups@.len(),
        i < m.channels@.len(),
        nesting::items(m.channel_infos(), m.group_infos(), m.groups@[g as int].uuid@).len()
            <= usize::MAX,
    ensures
        count(
            m.program(shown, selects, inputs),
            blend_of(Bus::Group(g), Source::Channel(i)),
        ) == (if m.scene(shown).composes(m.groups@[g as int].uuid@) && shown.layers@[i as int] && (
        m.channels@[i as int].group matches Some(own) && own@ == m.groups@[g as int].uuid@) {
            1nat
        } else {
            0
        }),
{
    let sc = m.scene(shown);
    let from = Source::Channel(i);
    let name = sc.gs[g as int].uuid;
    let items = nesting::items(sc.cs, sc.gs, name);
    assert(m.channels.len() == m.channels@.len());
    let b = lemma_frame_group_blends(m, shown, selects, inputs, g, from);
    let rendered = sc.rendered_after(b);
    let steps = sc.group_steps(name, b);
    lemma_item_steps_are(sc, rendered, items, items.len());
    frame_laws::law_items_are_the_direct_children(sc.cs, sc.gs, name);
    assert forall|k: int| 0 <= k < steps.len() && (#[trigger] steps[k]).source == from implies
        items[steps[k].slot as int] == Item::Channel(i as int) && sc.layers[i as int] by {
        assert(sc.item_source(rendered, items[steps[k].slot as int]) == Some(from));
    }
    if sc.layers[i as int] && sc.cs[i as int].group == Some(name) {
        frame_laws::law_layer_is_in_its_group(sc.cs, sc.gs, i as int, name);
        let at = choose|at: int| 0 <= at < items.len() && items[at] == Item::Channel(i as int);
        assert(sc.item_source(rendered, items[at]) is Some);
        let k = choose|k: int| 0 <= k < steps.len() && (#[trigger] steps[k]).slot == at;
        assert(steps[k].source == from);
    }
    let found = exists|k: int| 0 <= k < steps.len() && (#[trigger] steps[k]).source == from;
    assert forall|j: int, k: int|
        0 <= j < steps.len() && 0 <= k < steps.len() && (#[trigger] steps[j]).source == from && (
        #[trigger] steps[k]).source == from implies j == k by {
        assert(items[steps[j].slot as int] == items[steps[k].slot as int]);
        assert(steps[j].slot == steps[k].slot);
    }
    lemma_steps_blend(m, Bus::Group(g), steps, from, found);
}

/// A nested group that is composited, holds a layer and whose level counts is blended into
/// the group around it exactly once if that is composited, and into no other group.
#[verifier::rlimit(40)]
pub proof fn law_nested_group_joins_its_parent<E, M>(
    m: Mixer<E, M>,
    shown: Shown,
    selects: Seq<InputSelect>,
    inputs: nat,
    g: usize,
    h: usize,
)
    requires
        frame_laws::distinct_groups(m.group_infos()),
        g < m.groups@.len(),
        h < m.groups@.len(),
        nesting::items(m.channel_infos(), m.group_infos(), m.groups@[g as int].uuid@).len()
            <= usize::MAX,
    ensures
        ({
            let sc = m.scene(shown);
            let outer = m.groups@[g as int].uuid@;
            let inner = m.groups@[h as int].uuid@;
            count(
                m.program(shown, selects, inputs),
                blend_of(Bus::Group(g), Source::Group(h)),
            ) == (if sc.composes(outer) && sc.composes(inner) && shown.nested@[h as int] && (
            m.groups@[h as int].parent matches Some(p) && p@ == outer) && nesting::depth(
                sc.gs,
                inner,
            ) is Some && (exists|i: int|
                0 <= i < sc.cs.len() && nesting::inside(sc.gs, #[trigger] sc.cs[i], inner)) {
                1nat
            } else {
                0
            })
        }),
{
    let sc = m.scene(shown);
    let from = Source::Group(h);
    let name = sc.gs[g as int].uuid;
    let inner = sc.gs[h as int].uuid;
    let items = nesting::items(sc.cs, sc.gs, name);
    assert(m.channels.len() == m.channels@.len());
    assert(m.groups.len() == m.groups@.len());
    let b = lemma_frame_group_blends(m, shown, selects, inputs, g, from);
    let rendered = sc.rendered_after(b);
    let steps = sc.group_steps(name, b);
    lemma_item_steps_are(sc, rendered, items, items.len());
    frame_laws::law_items_are_the_direct_children(sc.cs, sc.gs, name);
    frame_laws::law_items_are_distinct(sc.cs, sc.gs, name);
    frame_laws::lemma_own_place(sc.gs, h as int);
    frame_laws::law_group_sits_at_its_topmost_layer(sc.cs, sc.gs, inner);
    if nesting::nested_in(sc.gs, sc.gs[h as int], name) {
        frame_laws::law_children_are_finished(sc, h as int, b as int);
    }
    assert forall|k: int| 0 <= k < steps.len() && (#[trigger] steps[k]).source == from implies
        items[steps[k].slot as int] == Item::Group(inner) && rendered[h as int]
        && sc.nested[h as int] by {
        let item = items[steps[k].slot as int];
        assert(sc.item_source(rendered, item) == Some(from));
        let other = item->Group_0;
        nesting::lemma_group_at(sc.gs, other);
    }
    assert forall|k: int| 0 <= k < items.len() && #[trigger] items[k] == Item::Group(
        inner,
    ) implies nesting::nested_in(sc.gs, sc.gs[h as int], name) && nesting::stack_pos(
        sc.cs,
        sc.gs,
        inner,
    ) is Some by {
        let q = choose|q: int|
            0 <= q < sc.gs.len() && (#[trigger] sc.gs[q]).uuid == inner && sc.gs[q].parent == Some(
                name,
            ) && nesting::depth(sc.gs, inner) is Some;
        frame_laws::lemma_own_place(sc.gs, q);
    }
    if nesting::nested_in(sc.gs, sc.gs[h as int], name) && nesting::stack_pos(
        sc.cs,
        sc.gs,
        inner,
    ) is Some && rendered[h as int] && sc.nested[h as int] {
        frame_laws::lemma_nested_item(sc.cs, sc.gs, name, h as int);
        let at = choose|at: int| 0 <= at < items.len() && items[at] == Item::Group(inner);
        assert(sc.item_source(rendered, items[at]) is Some);
        let k = choose|k: int| 0 <= k < steps.len() && (#[trigger] steps[k]).slot == at;
        assert(steps[k].source == from);
    }
    let found = exists|k: int| 0 <= k < steps.len() && (#[trigger] steps[k]).source == from;
    if found {
        let k = choose|k: int| 0 <= k < steps.len() && (#[trigger] steps[k]).source == from;
        assert(items[steps[k].slot as int] == Item::Group(inner));
    }
    assert forall|j: int, k: int|
        0 <= j < steps.len() && 0 <= k < steps.len() && (#[trigger] steps[j]).source == from && (
        #[trigger] steps[k]).source == from implies j == k by {
        assert(items[steps[j].slot as int] == items[steps[k].slot as int]);
        assert(steps[j].slot == steps[k].slot);
    }
    lemma_steps_blend(m, Bus::Group(g), steps, from, found);
}

/// A group blends its children in stack order, the bottom first: a layer with its own
/// settings at its own place, a nested group with a group's at that of its topmost layer.
pub proof fn law_group_blends_in_stack_order(sc: Scene, name: Name, n: nat)
    requires
        sc.cs.len() <= usize::MAX,
        sc.gs.len() <= usize::MAX,
        nesting::items(sc.cs, sc.gs, name).len() <= usize::MAX,
    ensures
        ({
            let steps = sc.group_steps(name, n);
            &&& forall|j: int, k: int|
                0 <= j < k < steps.len() ==> source_place(sc, (#[trigger] steps[j]).source)
                    <= source_place(sc, (#[trigger] steps[k]).source)
            &&& forall|k: int|
                0 <= k < steps.len() ==> (#[trigger] steps[k]).dest_is_a == (k % 2 == 0)
            &&& forall|k: int|
                0 <= k < steps.len() ==> match (#[trigger] steps[k]).source {
                    Source::Channel(i) => steps[k].kind == StepKind::Layer && sc.cs[i as int].group
                        == Some(name),
                    Source::Group(g) => steps[k].kind == StepKind::Group && nesting::nested_in(
                        sc.gs,
                        sc.gs[g as int],
                        name,
                    ) || !frame_laws::distinct_groups(sc.gs),
                    Source::Transition => false,
                }
        }),
{
    let items = nesting::items(sc.cs, sc.gs, name);
    let rendered = sc.rendered_after(n);
    let steps = sc.group_steps(name, n);
    lemma_item_steps_are(sc, rendered, items, items.len());
    draw::lemma_group_steps(sc, rendered, name, items.len());
    frame_laws::law_items_are_the_direct_children(sc.cs, sc.gs, name);
    assert forall|k: int| 0 <= k < steps.len() implies source_place(
        sc,
        (#[trigger] steps[k]).source,
    ) == frame_laws::place_of(sc.cs, sc.gs, items[steps[k].slot as int]) by {
        let item = items[steps[k].slot as int];
        assert(sc.item_source(rendered, item) == Some(steps[k].source));
        if let Item::Group(inner) = item {
            nesting::lemma_group_at(sc.gs, inner);
        }
    }
    assert forall|k: int| 0 <= k < steps.len() implies match (#[trigger] steps[k]).source {
        Source::Channel(i) => steps[k].kind == StepKind::Layer && sc.cs[i as int].group == Some(
            name,
        ),
        Source::Group(g) => steps[k].kind == StepKind::Group && nesting::nested_in(
            sc.gs,
            sc.gs[g as int],
            name,
        ) || !frame_laws::distinct_groups(sc.gs),
        Source::Transition => false,
    } by {
        let item = items[steps[k].slot as int];
        assert(sc.item_source(rendered, item) == Some(steps[k].source));
        if let Item::Group(inner) = item {
            nesting::lemma_group_at(sc.gs, inner);
            if frame_laws::distinct_groups(sc.gs) {
                let q = choose|q: int|
                    0 <= q < sc.gs.len() && (#[trigger] sc.gs[q]).uuid == inner && sc.gs[q].parent
                        == Some(name) && nesting::depth(sc.gs, inner) is Some;
                frame_laws::lemma_own_place(sc.gs, q);
            }
        }
    }
}

/// Where a source sits in the stack.
pub open spec fn source_place(sc: Scene, source: Source) -> int {
    match source {
        Source::Channel(i) => i as int,
        Source::Group(g) => nesting::stack_pos(sc.cs, sc.gs, sc.gs[g as int].uuid)->0,
        Source::Transition => sc.cs.len() as int,
    }
}

/// A top-level group that is not combined with the other deck is blended into the master
/// exactly once if it is composited, its level counts and some layer contributes to it;
/// otherwise not at all.
#[verifier::rlimit(40)]
pub proof fn law_top_group_joins_the_master<E, M>(
    m: Mixer<E, M>,
    shown: Shown,
    selects: Seq<InputSelect>,
    inputs: nat,
    g: usize,
)
    requires
        frame_laws::distinct_groups(m.group_infos()),
        g < m.groups@.len(),
        nesting::outermost(m.group_infos(), m.groups@[g as int].uuid@)
            == m.groups@[g as int].uuid@,
        m.scene(shown).deck_source() is None || (m.decks matches Some(d) && d@[0]@
            != m.groups@[g as int].uuid@ && d@[1]@ != m.groups@[g as int].uuid@),
    ensures
        count(
            m.program(shown, selects, inputs),
            blend_of(Bus::Master, Source::Group(g)),
        ) == (if m.scene(shown).composes(m.groups@[g as int].uuid@) && shown.masters@[g as int] && (
        exists|j: int|
            #[trigger] frame_laws::topmost_in(
                m.scene(shown),
                m.groups@[g as int].uuid@,
                j,
            )) {
            1nat
        } else {
            0
        }),
{
    let sc = m.scene(shown);
    let from = Source::Group(g);
    let name = sc.gs[g as int].uuid;
    let steps = sc.master_steps(m.channels@.len());
    assert(m.channels.len() == m.channels@.len());
    assert(m.groups.len() == m.groups@.len());
    lemma_master_blends(m, shown, selects, inputs, from);
    lemma_master_steps_are(sc, sc.cs.len());
    assert forall|k: int| 0 <= k < steps.len() && (#[trigger] steps[k]).source == from implies
        frame_laws::topmost_in(sc, name, steps[k].slot as int) && sc.composes(name)
        && sc.masters[g as int] by {
        let j = steps[k].slot as int;
        frame_laws::law_group_joins_at_its_topmost_layer(sc, g as int, j);
        if sc.deck_source() is Some {
            let d = sc.decks->0;
            nesting::lemma_group_at(sc.gs, d.0);
            nesting::lemma_group_at(sc.gs, d.1);
            frame_laws::law_decks_join_at_their_topmost_layer(sc, d, j);
        }
    }
    let due = sc.composes(name) && sc.masters[g as int] && exists|j: int|
        #[trigger] frame_laws::topmost_in(sc, name, j);
    if due {
        let j = choose|j: int| #[trigger] frame_laws::topmost_in(sc, name, j);
        frame_laws::law_group_joins_at_its_topmost_layer(sc, g as int, j);
        assert(sc.master_source(j) is Some);
        let k = choose|k: int| 0 <= k < steps.len() && (#[trigger] steps[k]).slot == j;
        assert(steps[k].source == from);
    }
    let found = exists|k: int| 0 <= k < steps.len() && (#[trigger] steps[k]).source == from;
    assert forall|j: int, k: int|
        0 <= j < steps.len() && 0 <= k < steps.len() && (#[trigger] steps[j]).source == from && (
        #[trigger] steps[k]).source == from implies j == k by {
        let a = steps[j].slot as int;
        let b = steps[k].slot as int;
        assert(frame_laws::topmost_in(sc, name, a) && frame_laws::topmost_in(sc, name, b));
        assert(sc.layers[a] && sc.layers[b]);
        assert(a == b);
    }
    lemma_steps_blend(m, Bus::Master, steps, from, found);
}

/// The transition's image is blended into the master exactly once where the decks are
/// combined by it, their common level counts and some layer contributes to either;
/// otherwise not at all.
#[verifier::rlimit(40)]
pub proof fn law_transition_joins_the_master<E, M>(
    m: Mixer<E, M>,
    shown: Shown,
    selects: Seq<InputSelect>,
    inputs: nat,
)
    ensures
        count(
            m.program(shown, selects, inputs),
            blend_of(Bus::Master, Source::Transition),
        ) == (if m.scene(shown).deck_source() == Some(Source::Transition) && shown.both && (
        m.decks matches Some(d) && exists|j: int|
            #[trigger] frame_laws::in_a_deck(m.scene(shown), (d@[0]@, d@[1]@), j)) {
            1nat
        } else {
            0
        }),
{
    let sc = m.scene(shown);
    let from = Source::Transition;
    let steps = sc.master_steps(m.channels@.len());
    assert(m.channels.len() == m.channels@.len());
    lemma_master_blends(m, shown, selects, inputs, from);
    lemma_master_steps_are(sc, sc.cs.len());
    let found = exists|k: int| 0 <= k < steps.len() && (#[trigger] steps[k]).source == from;
    if sc.deck_source() == Some(Source::Transition) {
        let d = sc.decks->0;
        assert forall|k: int| 0 <= k < steps.len() && (#[trigger] steps[k]).source == from implies
            sc.deck_anchor() == Some(steps[k].slot as int) && sc.both by {
            let j = steps[k].slot as int;
            assert(sc.master_source(j) == Some((from, steps[k].kind)));
        }
        frame_laws::law_deck_anchor_is_topmost(sc, d);
        if let Some(a) = sc.deck_anchor() {
            assert(frame_laws::in_a_deck(sc, d, a));
        }
        let due = sc.both && exists|j: int| #[trigger] frame_laws::in_a_deck(sc, d, j);
        if due {
            let j = sc.deck_anchor()->0;
            nesting_laws::law_outermost_is_top(sc.gs, sc.cs[j].group->0);
            assert(sc.master_source(j) == Some((from, StepKind::Decks)));
            let k = choose|k: int| 0 <= k < steps.len() && (#[trigger] steps[k]).slot == j;
            assert(steps[k].source == from);
        }
    } else {
        assert forall|k: int| 0 <= k < steps.len() implies (#[trigger] steps[k]).source != from by {
            let j = steps[k].slot as int;
            assert(sc.master_source(j) == Some((steps[k].source, steps[k].kind)));
        }
    }
    lemma_steps_blend(m, Bus::Master, steps, from, found);
}

/// A channel that drew holds its output in its second texture exactly where an odd number
/// of effects of its chain ran; one that did not draw stays as it was.
pub proof fn law_drawn_channel<E, M>(c: Channel<E, M>, shown: bool)
    ensures
        shown && c.size@ != seq![0u32, 0u32] ==> {
            let odd = c.chain@.filter(|s: EffectSlot<E>| s.enabled).len() % 2 == 1;
            draw::drawn(c, shown) == (Channel {
                last_output: if odd {
                    LastOutput::Ping
                } else {
                    LastOutput::Texture
                },
                ..c
            })
        },
        !shown || c.size@ == seq![0u32, 0u32] ==> draw::drawn(c, shown) == c,
{
    resources::law_enabled_effects_are_counted(c.chain@);
}

} // verus!
