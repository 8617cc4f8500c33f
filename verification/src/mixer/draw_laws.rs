//! What holds of the draws of every frame.

use vstd::prelude::*;

use crate::mixer::draw;
use crate::mixer::draw::{Bus, Chain, Command, Inputs, Tex};
use crate::mixer::frame::Shown;
use crate::mixer::nesting;
use crate::mixer::resources;
use crate::mixer::scene::{BlendStep, Scene, Source};
use crate::mixer::types::{Channel, EffectSlot, InputSelect, LastOutput, Mixer};
use crate::order;

verus! {

/// The texture that a draw writes.
pub open spec fn target_of(c: Command) -> Tex {
    match c {
        Command::Draw { target, .. } => target,
        Command::Clear { target } => target,
        Command::Blend { target, .. } => target,
        Command::Blit { target, .. } => target,
    }
}

/// Whether a draw samples a texture of the mixer.
pub open spec fn samples(c: Command, t: Tex) -> bool {
    match c {
        Command::Draw { inputs: Inputs::Engine { .. }, .. } => false,
        Command::Draw { inputs: Inputs::One(a), .. } => t == a,
        Command::Draw { inputs: Inputs::Two(a, b), .. } => t == a || t == b,
        Command::Clear { .. } => false,
        Command::Blend { source, under, .. } => t == source || t == under,
        Command::Blit { from, .. } => t == from,
    }
}

/// Whether one of the draws writes a texture.
pub open spec fn writes(cmds: Seq<Command>, t: Tex) -> bool {
    exists|j: int| 0 <= j < cmds.len() && target_of(#[trigger] cmds[j]) == t
}

/// Whether each draw samples only what was written before it, given the draws that ran
/// before all of them.
pub open spec fn in_order(before: Seq<Command>, cmds: Seq<Command>) -> bool {
    forall|k: int, t: Tex|
        0 <= k < cmds.len() && #[trigger] samples(cmds[k], t) ==> writes(before + cmds.take(k), t)
}

/// Whether no draw samples the texture that it writes.
pub open spec fn no_feedback(cmds: Seq<Command>) -> bool {
    forall|k: int| 0 <= k < cmds.len() ==> !samples(#[trigger] cmds[k], target_of(cmds[k]))
}

proof fn lemma_writes_more(a: Seq<Command>, b: Seq<Command>, t: Tex)
    requires
        writes(a, t) || writes(b, t),
    ensures
        writes(a + b, t),
{
    if writes(a, t) {
        let j = choose|j: int| 0 <= j < a.len() && target_of(#[trigger] a[j]) == t;
        assert((a + b)[j] == a[j]);
    } else {
        let j = choose|j: int| 0 <= j < b.len() && target_of(#[trigger] b[j]) == t;
        assert((a + b)[a.len() + j] == b[j]);
    }
}

proof fn lemma_in_order_joined(before: Seq<Command>, a: Seq<Command>, b: Seq<Command>)
    requires
        in_order(before, a),
        in_order(before + a, b),
    ensures
        in_order(before, a + b),
{
    assert forall|k: int, t: Tex|
        0 <= k < (a + b).len() && #[trigger] samples((a + b)[k], t) implies writes(
        before + (a + b).take(k),
        t,
    ) by {
        if k < a.len() {
            assert(samples(a[k], t));
            assert((a + b).take(k) =~= a.take(k));
        } else {
            assert(samples(b[k - a.len()], t));
            assert(before + (a + b).take(k) =~= (before + a) + b.take(k - a.len()));
        }
    }
}

proof fn lemma_no_feedback_joined(a: Seq<Command>, b: Seq<Command>)
    requires
        no_feedback(a),
        no_feedback(b),
    ensures
        no_feedback(a + b),
{
    assert forall|k: int| 0 <= k < (a + b).len() implies !samples(
        #[trigger] (a + b)[k],
        target_of((a + b)[k]),
    ) by {
        if k < a.len() {
            assert((a + b)[k] == a[k]);
        } else {
            assert((a + b)[k] == b[k - a.len()]);
        }
    }
}

/// A chain of effects samples its input, then what its last effect drew.
proof fn lemma_chain<E>(
    before: Seq<Command>,
    chain: Chain,
    first: Tex,
    ping: Tex,
    slots: Seq<EffectSlot<E>>,
)
    requires
        slots.len() <= usize::MAX,
        first != ping,
        writes(before, first),
    ensures
        ({
            let cmds = draw::chain_commands(
                chain,
                first,
                ping,
                resources::passes_of(slots, slots.len()),
            );
            &&& in_order(before, cmds)
            &&& no_feedback(cmds)
            &&& writes(before + cmds, draw::chain_result(first, ping, draw::outcome(slots)))
        }),
{
    let passes = resources::passes_of(slots, slots.len());
    let cmds = draw::chain_commands(chain, first, ping, passes);
    resources::law_chain_hands_on(slots, slots.len());
    assert forall|k: int| 0 <= k < cmds.len() implies #[trigger] cmds[k] == draw::pass_command(
        chain,
        first,
        ping,
        passes[k],
    ) && passes[k].reads_ping == (k % 2 == 1) by {}
    assert forall|k: int, t: Tex|
        0 <= k < cmds.len() && #[trigger] samples(cmds[k], t) implies writes(
        before + cmds.take(k),
        t,
    ) by {
        assert(passes[k].reads_ping == (k % 2 == 1));
        if k > 0 {
            assert(passes[k - 1].reads_ping == ((k - 1) % 2 == 1));
            assert(cmds.take(k)[k - 1] == cmds[k - 1]);
            assert(target_of(cmds[k - 1]) == t);
            assert(writes(cmds.take(k), t));
        }
        lemma_writes_more(before, cmds.take(k), t);
    }
    assert forall|k: int| 0 <= k < cmds.len() implies !samples(
        #[trigger] cmds[k],
        target_of(cmds[k]),
    ) by {
        assert(passes[k].reads_ping == (k % 2 == 1));
    }
    let result = draw::chain_result(first, ping, draw::outcome(slots));
    if result == ping {
        let last = passes.len() - 1;
        assert(passes[last].reads_ping == (last % 2 == 1));
        assert(target_of(cmds[last]) == ping);
        assert(writes(cmds, ping));
    }
    lemma_writes_more(before, cmds, result);
}

/// The blends of a bus sample their sources and the accumulator that the last one wrote.
proof fn lemma_blends<E, M>(
    m: Mixer<E, M>,
    before: Seq<Command>,
    bus: Bus,
    steps: Seq<BlendStep>,
)
    requires
        writes(before, Tex::AccA(bus)),
        forall|k: int|
            0 <= k < steps.len() ==> (#[trigger] steps[k]).dest_is_a == (k % 2 == 0) && writes(
                before,
                m.source_tex(steps[k].source),
            ),
    ensures
        in_order(before, m.blend_commands(bus, steps)),
        no_feedback(m.blend_commands(bus, steps)),
        writes(before + m.blend_commands(bus, steps), draw::acc(bus, steps.len() % 2 == 0)),
{
    let cmds = m.blend_commands(bus, steps);
    assert forall|k: int, t: Tex|
        0 <= k < cmds.len() && #[trigger] samples(cmds[k], t) implies writes(
        before + cmds.take(k),
        t,
    ) by {
        assert(steps[k].dest_is_a == (k % 2 == 0));
        if t == m.source_tex(steps[k].source) || k == 0 {
            assert(writes(before, t));
        } else {
            assert(steps[k - 1].dest_is_a == ((k - 1) % 2 == 0));
            assert(cmds.take(k)[k - 1] == cmds[k - 1]);
            assert(target_of(cmds[k - 1]) == t);
            assert(writes(cmds.take(k), t));
        }
        lemma_writes_more(before, cmds.take(k), t);
    }
    let composed = draw::acc(bus, steps.len() % 2 == 0);
    if steps.len() > 0 {
        let last = steps.len() - 1;
        assert(steps[last].dest_is_a == (last % 2 == 0));
        assert(target_of(cmds[last]) == composed);
        assert(writes(cmds, composed));
    }
    lemma_writes_more(before, cmds, composed);
}

/// A bus whose sources were drawn before it draws its image.
proof fn lemma_bus<E, M>(
    m: Mixer<E, M>,
    before: Seq<Command>,
    bus: Bus,
    steps: Seq<BlendStep>,
    slots: Seq<EffectSlot<E>>,
)
    requires
        slots.len() <= usize::MAX,
        forall|k: int|
            0 <= k < steps.len() ==> (#[trigger] steps[k]).dest_is_a == (k % 2 == 0) && writes(
                before,
                m.source_tex(steps[k].source),
            ),
    ensures
        in_order(before, m.bus_commands(bus, steps, slots)),
        no_feedback(m.bus_commands(bus, steps, slots)),
        writes(m.bus_commands(bus, steps, slots), Tex::Out(bus)),
{
    let clear = seq![Command::Clear { target: Tex::AccA(bus) }];
    let blends = m.blend_commands(bus, steps);
    let composed = draw::acc(bus, steps.len() % 2 == 0);
    let passes = draw::chain_commands(
        Chain::Bus(bus),
        composed,
        Tex::Ping(bus),
        resources::passes_of(slots, slots.len()),
    );
    let from = draw::chain_result(composed, Tex::Ping(bus), draw::outcome(slots));
    let blit = seq![Command::Blit { from, target: Tex::Out(bus) }];
    assert(target_of(clear[0]) == Tex::AccA(bus));
    assert(in_order(before, clear));
    let at1 = before + clear;
    lemma_writes_more(before, clear, Tex::AccA(bus));
    assert forall|k: int| 0 <= k < steps.len() implies (#[trigger] steps[k]).dest_is_a == (k % 2
        == 0) && writes(at1, m.source_tex(steps[k].source)) by {
        lemma_writes_more(before, clear, m.source_tex(steps[k].source));
    }
    lemma_blends(m, at1, bus, steps);
    lemma_in_order_joined(before, clear, blends);
    lemma_no_feedback_joined(clear, blends);
    let at2 = before + (clear + blends);
    assert(at2 =~= at1 + blends);
    lemma_chain(at2, Chain::Bus(bus), composed, Tex::Ping(bus), slots);
    lemma_in_order_joined(before, clear + blends, passes);
    lemma_no_feedback_joined(clear + blends, passes);
    let at3 = before + (clear + blends + passes);
    assert(at3 =~= at2 + passes);
    assert forall|k: int, t: Tex|
        0 <= k < blit.len() && #[trigger] samples(blit[k], t) implies writes(
        at3 + blit.take(k),
        t,
    ) by {
        assert(at3 + blit.take(k) =~= at3);
    }
    lemma_in_order_joined(before, clear + blends + passes, blit);
    lemma_no_feedback_joined(clear + blends + passes, blit);
    let all = m.bus_commands(bus, steps, slots);
    assert(all =~= clear + blends + passes + blit);
    assert(target_of(all[all.len() - 1]) == Tex::Out(bus));
}

/// The layers draw their outputs.
proof fn lemma_layers<E, M>(
    channels: Seq<Channel<E, M>>,
    layers: Seq<bool>,
    selects: Seq<InputSelect>,
    inputs: nat,
    n: nat,
)
    requires
        n <= channels.len() <= usize::MAX,
        forall|i: int| 0 <= i < channels.len() ==> (#[trigger] channels[i]).chain@.len() <= usize::MAX,
    ensures
        ({
            let cmds = draw::layer_commands(channels, layers, selects, inputs, n);
            &&& in_order(Seq::empty(), cmds)
            &&& no_feedback(cmds)
            &&& forall|i: int|
                0 <= i < n && layers[i] && draw::has_output(#[trigger] channels[i]) ==> writes(
                    cmds,
                    draw::channel_tex(i, draw::outcome(channels[i].chain@)),
                )
        }),
    decreases n,
{
    if n > 0 {
        let m = (n - 1) as nat;
        let before = draw::layer_commands(channels, layers, selects, inputs, m);
        let cmds = draw::layer_commands(channels, layers, selects, inputs, n);
        lemma_layers(channels, layers, selects, inputs, m);
        let c = channels[n - 1];
        assert(Seq::<Command>::empty() + before =~= before);
        if layers[n - 1] && draw::has_output(c) {
            let own = draw::channel_commands(c, n - 1, selects[n - 1], inputs);
            let first = draw::channel_tex(n - 1, LastOutput::Texture);
            let ping = draw::channel_tex(n - 1, LastOutput::Ping);
            let effect = seq![own[0]];
            let passes = draw::chain_commands(
                Chain::Channel((n - 1) as usize),
                first,
                ping,
                resources::passes_of(c.chain@, c.chain@.len()),
            );
            assert(own =~= effect + passes);
            assert(target_of(effect[0]) == first);
            assert(in_order(before, effect));
            lemma_writes_more(before, effect, first);
            lemma_chain(
                before + effect,
                Chain::Channel((n - 1) as usize),
                first,
                ping,
                c.chain@,
            );
            lemma_in_order_joined(before, effect, passes);
            lemma_no_feedback_joined(effect, passes);
            lemma_in_order_joined(Seq::empty(), before, own);
            lemma_no_feedback_joined(before, own);
            assert((before + effect) + passes =~= cmds);
        } else {
            assert(cmds =~= before);
        }
        assert forall|i: int| 0 <= i < n && layers[i] && draw::has_output(#[trigger] channels[i])
            implies writes(cmds, draw::channel_tex(i, draw::outcome(channels[i].chain@))) by {
            if i < n - 1 {
                let tail = if layers[n - 1] {
                    draw::channel_commands(c, n - 1, selects[n - 1], inputs)
                } else {
                    Seq::empty()
                };
                lemma_writes_more(
                    before,
                    tail,
                    draw::channel_tex(i, draw::outcome(channels[i].chain@)),
                );
            } else {
                let result = draw::chain_result(
                    draw::channel_tex(i, LastOutput::Texture),
                    draw::channel_tex(i, LastOutput::Ping),
                    draw::outcome(c.chain@),
                );
                assert(result == draw::channel_tex(i, draw::outcome(c.chain@)));
            }
        }
    }
}

/// Whether the draws before cover every layer that contributes.
spec fn layers_drawn<E, M>(m: Mixer<E, M>, sc: Scene, before: Seq<Command>) -> bool {
    forall|i: int|
        0 <= i < sc.cs.len() && #[trigger] sc.layers[i] ==> writes(
            before,
            draw::channel_tex(i, draw::outcome(m.channels@[i].chain@)),
        )
}

/// The groups draw their images, deepest first.
proof fn lemma_groups<E, M>(m: Mixer<E, M>, shown: Shown, before: Seq<Command>, n: nat)
    requires
        m.covers(shown),
        n <= m.groups@.len() <= usize::MAX,
        m.channels@.len() <= usize::MAX,
        layers_drawn(m, m.scene(shown), before),
    ensures
        in_order(before, m.group_commands(m.scene(shown), n)),
        no_feedback(m.group_commands(m.scene(shown), n)),
        m.scene(shown).rendered_after(n).len() == m.groups@.len(),
        forall|g: int|
            0 <= g < m.groups@.len() && #[trigger] m.scene(shown).rendered_after(n)[g] ==> writes(
                m.group_commands(m.scene(shown), n),
                Tex::Out(Bus::Group(g as usize)),
            ),
    decreases n,
{
    let sc = m.scene(shown);
    let cmds = m.group_commands(sc, n);
    if n > 0 {
        let k = (n - 1) as nat;
        lemma_groups(m, shown, before, k);
        let done = m.group_commands(sc, k);
        order::law_stable_order(nesting::render_keys(sc.gs));
        let name = sc.gs[nesting::render_order(sc.gs)[n - 1]].uuid;
        nesting::lemma_group_at(sc.gs, name);
        let g = nesting::group_at(sc.gs, name)->0;
        let own = if sc.composes(name) {
            m.bus_commands(Bus::Group(g as usize), sc.group_steps(name, k), m.groups@[g].chain@)
        } else {
            Seq::empty()
        };
        let rendered = sc.rendered_after(k);
        if sc.composes(name) {
            let steps = sc.group_steps(name, k);
            draw::lemma_group_steps(
                sc,
                rendered,
                name,
                nesting::items(sc.cs, sc.gs, name).len(),
            );
            assert forall|j: int| 0 <= j < steps.len() implies (#[trigger] steps[j]).dest_is_a == (
            j % 2 == 0) && writes(before + done, m.source_tex(steps[j].source)) by {
                assert(draw::is_drawn(sc, rendered, steps[j].source));
                let t = m.source_tex(steps[j].source);
                match steps[j].source {
                    Source::Channel(i) => {
                        assert(sc.layers[i as int]);
                    },
                    Source::Group(inner) => {
                        assert(rendered[inner as int]);
                    },
                    Source::Transition => {
                        lemma_no_transition(sc, rendered, name, j);
                    },
                }
                lemma_writes_more(before, done, t);
            }
            assert(m.groups@[g].chain.len() == m.groups@[g].chain@.len());
            lemma_bus(m, before + done, Bus::Group(g as usize), steps, m.groups@[g].chain@);
        }
        lemma_in_order_joined(before, done, own);
        lemma_no_feedback_joined(done, own);
        assert forall|h: int|
            0 <= h < m.groups@.len() && #[trigger] sc.rendered_after(n)[h] implies writes(
            cmds,
            Tex::Out(Bus::Group(h as usize)),
        ) by {
            if h == g {
                assert(writes(own, Tex::Out(Bus::Group(h as usize))));
            } else {
                assert(sc.rendered_after(k)[h]);
            }
            lemma_writes_more(done, own, Tex::Out(Bus::Group(h as usize)));
        }
    }
}

/// No group blends the decks as one image.
proof fn lemma_no_transition(sc: Scene, rendered: Seq<bool>, name: nesting::Name, j: int)
    requires
        0 <= j < sc.item_steps(
            rendered,
            nesting::items(sc.cs, sc.gs, name),
            nesting::items(sc.cs, sc.gs, name).len(),
        ).len(),
    ensures
        sc.item_steps(
            rendered,
            nesting::items(sc.cs, sc.gs, name),
            nesting::items(sc.cs, sc.gs, name).len(),
        )[j].source != Source::Transition,
{
    let items = nesting::items(sc.cs, sc.gs, name);
    lemma_item_sources(sc, rendered, items, items.len());
}

proof fn lemma_item_sources(sc: Scene, rendered: Seq<bool>, items: Seq<nesting::Item>, n: nat)
    requires
        n <= items.len(),
    ensures
        forall|j: int|
            0 <= j < sc.item_steps(rendered, items, n).len() ==> (#[trigger] sc.item_steps(
                rendered,
                items,
                n,
            )[j]).source != Source::Transition,
    decreases n,
{
    if n > 0 {
        let before = sc.item_steps(rendered, items, (n - 1) as nat);
        lemma_item_sources(sc, rendered, items, (n - 1) as nat);
        assert forall|j: int| 0 <= j < sc.item_steps(rendered, items, n).len() implies (
        #[trigger] sc.item_steps(rendered, items, n)[j]).source != Source::Transition by {
            if j < before.len() {
                assert(sc.item_steps(rendered, items, n)[j] == before[j]);
            }
        }
    }
}

/// Nothing stale reaches the screen: every draw of a frame samples only textures that an
/// earlier draw of the same frame wrote. So a layer is drawn before its group blends it, a
/// nested group is finished before the group around it, both decks before the transition,
/// and each effect of a chain after the one in front of it.
pub proof fn law_samples_are_fresh<E, M>(
    m: Mixer<E, M>,
    shown: Shown,
    selects: Seq<InputSelect>,
    inputs: nat,
)
    requires
        m.covers(shown),
        forall|i: int|
            0 <= i < m.channels@.len() && shown.layers@[i] ==> draw::has_output(
                #[trigger] m.channels@[i],
            ),
    ensures
        in_order(Seq::empty(), m.program(shown, selects, inputs)),
        no_feedback(m.program(shown, selects, inputs)),
{
    let sc = m.scene(shown);
    let none = Seq::<Command>::empty();
    assert(m.channels.len() == sc.cs.len() && m.groups.len() == sc.gs.len() && m.master.len()
        == m.master@.len());
    let layers = draw::layer_commands(
        m.channels@,
        shown.layers@,
        selects,
        inputs,
        m.channels@.len(),
    );
    assert forall|i: int| 0 <= i < m.channels@.len() implies (
    #[trigger] m.channels@[i]).chain@.len() <= usize::MAX by {
        assert(m.channels@[i].chain.len() == m.channels@[i].chain@.len());
    }
    lemma_layers(m.channels@, shown.layers@, selects, inputs, m.channels@.len());
    assert forall|i: int| 0 <= i < sc.cs.len() && #[trigger] sc.layers[i] implies writes(
        layers,
        draw::channel_tex(i, draw::outcome(m.channels@[i].chain@)),
    ) by {
        assert(draw::has_output(m.channels@[i]));
    }
    let groups = m.group_commands(sc, sc.gs.len());
    lemma_groups(m, shown, layers, sc.gs.len());
    assert(none + layers =~= layers);
    lemma_in_order_joined(none, layers, groups);
    lemma_no_feedback_joined(layers, groups);
    let so_far = layers + groups;
    let transition = m.transition_commands(sc);
    if sc.deck_source() == Some(Source::Transition) {
        let d = sc.decks->0;
        nesting::lemma_group_at(sc.gs, d.0);
        nesting::lemma_group_at(sc.gs, d.1);
        let a = nesting::group_at(sc.gs, d.0)->0;
        let b = nesting::group_at(sc.gs, d.1)->0;
        assert(sc.rendered_after(sc.gs.len())[a] && sc.rendered_after(sc.gs.len())[b]);
        lemma_writes_more(layers, groups, Tex::Out(Bus::Group(a as usize)));
        lemma_writes_more(layers, groups, Tex::Out(Bus::Group(b as usize)));
        assert(target_of(transition[0]) == Tex::Transition);
        assert forall|k: int, t: Tex|
            0 <= k < transition.len() && #[trigger] samples(transition[k], t) implies writes(
            so_far + transition.take(k),
            t,
        ) by {
            assert(so_far + transition.take(k) =~= so_far);
        }
    }
    assert(none + so_far =~= so_far);
    lemma_in_order_joined(none, so_far, transition);
    lemma_no_feedback_joined(so_far, transition);
    let all = so_far + transition;
    let steps = sc.master_steps(sc.cs.len());
    draw::lemma_master_steps(sc, sc.cs.len());
    assert forall|j: int| 0 <= j < steps.len() implies (#[trigger] steps[j]).dest_is_a == (j % 2
        == 0) && writes(all, m.source_tex(steps[j].source)) by {
        assert(draw::is_drawn(sc, sc.rendered(), steps[j].source));
        let t = m.source_tex(steps[j].source);
        match steps[j].source {
            Source::Channel(i) => {
                assert(sc.layers[i as int]);
                lemma_writes_more(layers, groups, t);
            },
            Source::Group(g) => {
                assert(sc.rendered_after(sc.gs.len())[g as int]);
                lemma_writes_more(layers, groups, t);
            },
            Source::Transition => {},
        }
        lemma_writes_more(so_far, transition, t);
    }
    lemma_bus(m, all, Bus::Master, steps, m.master@);
    assert(none + all =~= all);
    let master = m.bus_commands(Bus::Master, steps, m.master@);
    lemma_in_order_joined(none, all, master);
    lemma_no_feedback_joined(all, master);
}

proof fn lemma_writes_neither(a: Seq<Command>, b: Seq<Command>, t: Tex)
    requires
        !writes(a, t),
        !writes(b, t),
    ensures
        !writes(a + b, t),
{
    assert forall|j: int| 0 <= j < (a + b).len() implies target_of(#[trigger] (a + b)[j]) != t by {
        if j < a.len() {
            assert((a + b)[j] == a[j]);
        } else {
            assert((a + b)[j] == b[j - a.len()]);
        }
    }
}

proof fn lemma_layers_leave_the_frame<E, M>(
    channels: Seq<Channel<E, M>>,
    layers: Seq<bool>,
    selects: Seq<InputSelect>,
    inputs: nat,
    n: nat,
)
    ensures
        !writes(
            draw::layer_commands(channels, layers, selects, inputs, n),
            Tex::Out(Bus::Master),
        ),
    decreases n,
{
    if n > 0 {
        let m = (n - 1) as nat;
        lemma_layers_leave_the_frame(channels, layers, selects, inputs, m);
        let own = if layers[n - 1] {
            draw::channel_commands(channels[n - 1], n - 1, selects[n - 1], inputs)
        } else {
            Seq::empty()
        };
        assert forall|j: int| 0 <= j < own.len() implies target_of(#[trigger] own[j]) != Tex::Out(
            Bus::Master,
        ) by {}
        lemma_writes_neither(
            draw::layer_commands(channels, layers, selects, inputs, m),
            own,
            Tex::Out(Bus::Master),
        );
    }
}

proof fn lemma_groups_leave_the_frame<E, M>(m: Mixer<E, M>, sc: Scene, n: nat)
    ensures
        !writes(m.group_commands(sc, n), Tex::Out(Bus::Master)),
    decreases n,
{
    if n > 0 {
        let k = (n - 1) as nat;
        lemma_groups_leave_the_frame(m, sc, k);
        let name = sc.gs[nesting::render_order(sc.gs)[n - 1]].uuid;
        let g = nesting::group_at(sc.gs, name)->0;
        let own = if sc.composes(name) {
            m.bus_commands(Bus::Group(g as usize), sc.group_steps(name, k), m.groups@[g].chain@)
        } else {
            Seq::empty()
        };
        assert forall|j: int| 0 <= j < own.len() implies target_of(#[trigger] own[j]) != Tex::Out(
            Bus::Master,
        ) by {}
        lemma_writes_neither(m.group_commands(sc, k), own, Tex::Out(Bus::Master));
    }
}

/// The frame itself is written exactly once, by the last draw: nothing half-finished is
/// ever on screen.
pub proof fn law_frame_is_written_last<E, M>(
    m: Mixer<E, M>,
    shown: Shown,
    selects: Seq<InputSelect>,
    inputs: nat,
)
    ensures
        m.program(shown, selects, inputs).len() > 0,
        target_of(m.program(shown, selects, inputs).last()) == Tex::Out(Bus::Master),
        !writes(m.program(shown, selects, inputs).drop_last(), Tex::Out(Bus::Master)),
{
    let sc = m.scene(shown);
    let out = Tex::Out(Bus::Master);
    let layers = draw::layer_commands(
        m.channels@,
        shown.layers@,
        selects,
        inputs,
        m.channels@.len(),
    );
    let groups = m.group_commands(sc, m.groups@.len());
    let transition = m.transition_commands(sc);
    let master = m.bus_commands(
        Bus::Master,
        sc.master_steps(m.channels@.len()),
        m.master@,
    );
    lemma_layers_leave_the_frame(m.channels@, shown.layers@, selects, inputs, m.channels@.len());
    lemma_groups_leave_the_frame(m, sc, m.groups@.len());
    assert(!writes(transition, out));
    lemma_writes_neither(layers, groups, out);
    lemma_writes_neither(layers + groups, transition, out);
    let head = master.drop_last();
    assert forall|j: int| 0 <= j < head.len() implies target_of(#[trigger] head[j]) != out by {}
    lemma_writes_neither(layers + groups + transition, head, out);
    assert(m.program(shown, selects, inputs).drop_last() =~= layers + groups + transition + head);
}

} // verus!
