//! The plan of a frame, the resources behind it and the declared parameters.

use rustjay::mixer::draw::{Bus, Command, Inputs, Tex};
use rustjay::mixer::frame::{ends_in_a, FramePlan, GroupPass, Shown};
use rustjay::mixer::params::{
    key_mode_labels, ChannelParam, ChannelParams, EffectParams, OwnParam, Owner, ParamSource,
};
use rustjay::mixer::resources::{run_chain, texture_is_stale, ChainPass};
use rustjay::mixer::scene::{BlendStep, Source, StepKind};
use rustjay::mixer::transition::{Driver, Fader};
use rustjay::mixer::types::{Channel, EffectSlot, InputSelect, LastOutput};

/// An effect that draws nothing.
struct Stub;

type Mixer = rustjay::mixer::types::Mixer<Stub, ()>;

fn mixer(layers: usize) -> Mixer {
    let mut m = Mixer::new();
    m.use_crossfader = false;
    for i in 0..layers {
        m.add_channel(Channel::new(&format!("c{i}"), &format!("C{i}"), Stub, ())).unwrap();
    }
    m
}

fn group(m: &mut Mixer, uuid: &str, members: &[&str]) {
    let members: Vec<String> = members.iter().map(|s| s.to_string()).collect();
    assert!(m.group_channels(uuid, uuid, (), &members).is_some());
}

fn all_shown(m: &Mixer) -> Shown {
    Shown {
        layers: vec![true; m.channels.len()],
        nested: vec![true; m.groups.len()],
        masters: vec![true; m.groups.len()],
        both: true,
        parked: None,
    }
}

fn step(slot: usize, source: Source, kind: StepKind, dest_is_a: bool) -> BlendStep {
    BlendStep { slot, source, kind, dest_is_a }
}

/// The blends of a group that was composited.
fn blends_of(plan: &FramePlan, index: usize) -> Option<&Vec<BlendStep>> {
    plan.groups.iter().find_map(|pass| match pass {
        GroupPass::Composite { group, steps } if *group == index => Some(steps),
        _ => None,
    })
}

#[test]
fn ungrouped_layers_blend_in_stack_order() {
    let m = mixer(3);
    let mut shown = all_shown(&m);
    shown.layers[1] = false;
    let plan = m.plan_frame(&shown);
    assert_eq!(
        plan.master,
        vec![
            step(0, Source::Channel(0), StepKind::Layer, true),
            step(2, Source::Channel(2), StepKind::Layer, false),
        ]
    );
    assert!(ends_in_a(&plan.master));
    assert!(plan.groups.is_empty() && plan.decks.is_none());
}

/// A layer is blended with its own key whether or not it sits in a group.
#[test]
fn a_grouped_layer_is_blended_with_its_own_key() {
    let m = mixer(2);
    let plan = m.plan_frame(&all_shown(&m));
    assert!(plan.master.iter().all(|s| s.kind == StepKind::Layer));

    let mut m = mixer(2);
    group(&mut m, "g", &["c0", "c1"]);
    let plan = m.plan_frame(&all_shown(&m));
    assert_eq!(
        blends_of(&plan, 0).unwrap(),
        &vec![
            step(0, Source::Channel(0), StepKind::Layer, true),
            step(1, Source::Channel(1), StepKind::Layer, false),
        ]
    );
    assert_eq!(plan.master, vec![step(1, Source::Group(0), StepKind::Group, true)]);
}

#[test]
fn a_nested_group_is_finished_before_its_parent() {
    let mut m = mixer(4);
    group(&mut m, "outer", &["c2", "c3"]);
    group(&mut m, "inner", &["c0", "c1"]);
    assert!(m.set_group_parent("inner", Some("outer")));
    let plan = m.plan_frame(&all_shown(&m));
    // The inner group is the second one made, but the first one drawn.
    assert!(matches!(plan.groups[0], GroupPass::Composite { group: 1, .. }));
    assert!(matches!(plan.groups[1], GroupPass::Composite { group: 0, .. }));
    assert_eq!(
        blends_of(&plan, 0).unwrap(),
        &vec![
            step(0, Source::Group(1), StepKind::Group, true),
            step(1, Source::Channel(2), StepKind::Layer, false),
            step(2, Source::Channel(3), StepKind::Layer, true),
        ]
    );
    // Only the outermost group reaches the master.
    assert_eq!(plan.master, vec![step(3, Source::Group(0), StepKind::Group, true)]);
}

/// A group joins at its topmost layer that contributes: silencing the top one must not
/// take the whole group along.
#[test]
fn a_group_survives_its_top_layer_going_dark() {
    let mut m = mixer(3);
    group(&mut m, "g", &["c0", "c1"]);
    let mut shown = all_shown(&m);
    shown.layers[1] = false;
    let plan = m.plan_frame(&shown);
    assert_eq!(
        plan.master,
        vec![
            step(0, Source::Group(0), StepKind::Group, true),
            step(2, Source::Channel(2), StepKind::Layer, false),
        ]
    );
}

#[test]
fn a_muted_group_gives_its_textures_back() {
    let mut m = mixer(2);
    group(&mut m, "g", &["c0", "c1"]);
    m.ensure_resources([4, 4]);
    let plan = m.plan_frame(&all_shown(&m));
    assert_eq!(m.apply_groups(&plan), vec![true]);
    assert!(m.groups[0].rendered && m.groups[0].allocated);
    assert_eq!(m.apply_groups(&plan), vec![false]);

    m.groups[0].mute = true;
    let mut shown = all_shown(&m);
    shown.layers = vec![false, false];
    let plan = m.plan_frame(&shown);
    assert!(matches!(plan.groups[0], GroupPass::Release { group: 0 }));
    assert!(plan.master.is_empty());
    assert_eq!(m.apply_groups(&plan), vec![false]);
    assert!(!m.groups[0].rendered && !m.groups[0].allocated);
    assert_eq!(m.groups[0].size, [0, 0]);
}

fn decks() -> Mixer {
    let mut m = mixer(5);
    group(&mut m, "a", &["c0", "c1"]);
    group(&mut m, "b", &["c2", "c3"]);
    m.decks = Some(["a".to_string(), "b".to_string()]);
    m.transition = Some(EffectSlot::new(Stub));
    m
}

#[test]
fn the_decks_join_the_master_as_one_image() {
    let m = decks();
    let plan = m.plan_frame(&all_shown(&m));
    assert_eq!(plan.decks, Some(Source::Transition));
    assert_eq!(
        plan.master,
        vec![
            step(3, Source::Transition, StepKind::Decks, true),
            step(4, Source::Channel(4), StepKind::Layer, false),
        ]
    );
}

#[test]
fn a_parked_fader_shows_the_winning_deck() {
    let m = decks();
    let mut shown = all_shown(&m);
    shown.parked = Some(1);
    let plan = m.plan_frame(&shown);
    assert_eq!(plan.decks, Some(Source::Group(1)));
    assert_eq!(plan.master[0], step(3, Source::Group(1), StepKind::Decks, true));
    shown.parked = Some(0);
    assert_eq!(m.plan_frame(&shown).decks, Some(Source::Group(0)));
}

#[test]
fn without_a_transition_the_decks_are_ordinary_groups() {
    let mut m = decks();
    m.transition = None;
    for parked in [None, Some(0), Some(1)] {
        let mut shown = all_shown(&m);
        shown.parked = parked;
        let plan = m.plan_frame(&shown);
        assert_eq!(plan.decks, None);
        assert_eq!(
            plan.master,
            vec![
                step(1, Source::Group(0), StepKind::Group, true),
                step(3, Source::Group(1), StepKind::Group, false),
                step(4, Source::Channel(4), StepKind::Layer, true),
            ]
        );
    }
}

/// An empty deck is a black image that the transition can fade to.
#[test]
fn an_empty_deck_still_renders() {
    let mut m = decks();
    for layer in ["c2", "c3"] {
        m.set_channel_group(layer, None);
    }
    let mut shown = all_shown(&m);
    let plan = m.plan_frame(&shown);
    assert_eq!(plan.rendered, vec![true, true]);
    assert!(blends_of(&plan, 1).unwrap().is_empty());
    assert_eq!(plan.decks, Some(Source::Transition));
    // The same group gives its textures back where it is no deck.
    m.decks = None;
    assert_eq!(m.plan_frame(&shown).rendered, vec![true, false]);
    // At a negligible level the decks are not blended.
    m.decks = Some(["a".to_string(), "b".to_string()]);
    shown.both = false;
    assert!(m.plan_frame(&shown).master.iter().all(|s| s.kind == StepKind::Layer));
}

#[test]
fn a_cyclic_group_keeps_its_layers_on_screen() {
    let mut m = mixer(4);
    group(&mut m, "a", &["c0", "c1"]);
    group(&mut m, "b", &["c2", "c3"]);
    m.groups[0].parent = Some("b".into());
    m.groups[1].parent = Some("a".into());
    let plan = m.plan_frame(&all_shown(&m));
    let sources: Vec<Source> = plan.master.iter().map(|s| s.source).collect();
    assert_eq!(sources, vec![Source::Group(0), Source::Group(1)]);
}

#[test]
fn a_chain_hands_on_from_effect_to_effect() {
    let mut slots: Vec<EffectSlot<Stub>> = (0..4).map(|_| EffectSlot::new(Stub)).collect();
    slots[1].enabled = false;
    let plan = run_chain(&slots);
    assert_eq!(
        plan.passes,
        vec![
            ChainPass { slot: 0, reads_ping: false },
            ChainPass { slot: 2, reads_ping: true },
            ChainPass { slot: 3, reads_ping: false },
        ]
    );
    assert_eq!(plan.output, LastOutput::Ping);
    for slot in &mut slots {
        slot.enabled = false;
    }
    let plan = run_chain(&slots);
    assert!(plan.passes.is_empty());
    assert_eq!(plan.output, LastOutput::Texture);
}

#[test]
fn textures_are_made_once_per_size() {
    let mut m = mixer(2);
    assert_eq!(m.channel_texture("c1"), None);
    assert!(m.channels[0].render().is_none());
    let before = m.generation;
    let need = m.ensure_resources([8, 6]);
    assert!(need.mixer);
    assert_eq!(need.channels, vec![true, true]);
    assert_eq!(m.generation, before + 1);
    let need = m.ensure_resources([8, 6]);
    assert!(!need.mixer);
    assert_eq!(need.channels, vec![false, false]);
    assert_eq!(m.generation, before + 1);
    assert_eq!(m.channel_texture("c1"), Some((1, LastOutput::Texture)));
    assert_eq!(m.channel_texture("nowhere"), None);
    assert!(texture_is_stale(&None, &[8, 6]));
    assert!(texture_is_stale(&Some([8, 7]), &[8, 6]));
    assert!(!texture_is_stale(&Some([8, 6]), &[8, 6]));
}

/// Switching an effect flips which texture is sampled, so the cache must go.
#[test]
fn a_changed_chain_invalidates_the_composite_cache() {
    let mut m = mixer(2);
    m.ensure_resources([2, 2]);
    m.channels[1].add_effect(Stub);
    let before = m.generation;
    m.note_enabled_counts();
    assert_eq!(m.generation, before + 1);
    m.note_enabled_counts();
    assert_eq!(m.generation, before + 1);
    assert_eq!(m.channels[1].last_enabled_count, 1);
    let plan = m.channels[1].render().unwrap();
    assert_eq!(plan.output, LastOutput::Ping);
    assert_eq!(m.channel_texture("c1"), Some((1, LastOutput::Ping)));
}

#[test]
fn the_generation_wraps() {
    let mut m = mixer(1);
    m.generation = u64::MAX;
    m.invalidate_composite_cache();
    assert_eq!(m.generation, 0);
}

fn own(id: &str, name: &str) -> OwnParam {
    OwnParam { id: id.to_string(), name: name.to_string() }
}

#[test]
fn parameters_are_declared_under_their_prefixes() {
    let mut m = mixer(2);
    m.channels[0].add_effect(Stub);
    m.channels[1].key_mode = 2;
    m.channels[1].luma_invert = true;
    group(&mut m, "g", &["c0", "c1"]);
    m.groups[0].chain.push(EffectSlot::new(Stub));
    m.transition = Some(EffectSlot::new(Stub));
    m.add_master_effect(Stub);
    let params = m.parameters(&EffectParams {
        channels: vec![
            ChannelParams { effect: vec![own("gain", "Gain")], chain: vec![vec![own("r", "R")]] },
            ChannelParams { effect: Vec::new(), chain: Vec::new() },
        ],
        groups: vec![vec![vec![own("blur", "Blur")]]],
        transition: vec![own("progress", "Progress")],
        master: vec![vec![own("lift", "Lift")]],
    });
    let ids: Vec<&str> = params.iter().map(|p| p.id.as_str()).collect();
    assert_eq!(ids.len(), 1 + 10 + 2 + 10 + 2 + 1 + 1 + 1);
    assert_eq!(
        ids[0..13],
        [
            "crossfader",
            "ch_c0_opacity",
            "ch_c0_blend",
            "ch_c0_input_select",
            "ch_c0_key_mode",
            "ch_c0_key_r",
            "ch_c0_key_g",
            "ch_c0_key_b",
            "ch_c0_key_threshold",
            "ch_c0_key_smoothness",
            "ch_c0_key_luma_invert",
            "ch_c0_gain",
            &format!("ch_c0_fx{}_r", m.channels[0].chain[0].uuid),
        ]
    );
    assert_eq!(params[0].name, "Crossfader");
    assert_eq!(params[0].source, ParamSource::Crossfader);
    assert_eq!(params[1].name, "C0 Opacity");
    assert_eq!(params[11].name, "Gain [ch_c0]");
    assert_eq!(
        params[11].source,
        ParamSource::Own { owner: Owner::Channel { channel: 0 }, index: 0 }
    );
    assert_eq!(params[16].id, "ch_c1_key_mode");
    assert_eq!(params[16].choice, Some(2));
    assert_eq!(
        params[16].source,
        ParamSource::Channel { channel: 1, setting: ChannelParam::KeyMode }
    );
    assert_eq!(params[22].choice, Some(1));
    assert_eq!(ids[23..25], ["grp_g_opacity", "grp_g_blend"]);
    assert_eq!(ids[25], format!("grp_g_fx{}_blur", m.groups[0].chain[0].uuid));
    assert_eq!(ids[26], "transition_progress");
    assert_eq!(params[26].name, "Progress [transition]");
    assert_eq!(ids[27], format!("master_fx{}_lift", m.master[0].uuid));
    assert_eq!(params[27].name, format!("Lift [master_fx{}]", m.master[0].uuid));
    assert_eq!(key_mode_labels(), ["None", "Chroma", "Luma"]);
}

#[test]
fn the_sequencer_drives_before_the_one_shot_fades() {
    let mut m = mixer(0);
    m.playing = true;
    m.auto = true;
    m.beat_sync = true;
    assert_eq!(m.transition_driver(), Driver::Sequencer);
    assert_eq!(m.tick_transitions(false, false), Fader::Stays);
    assert!(m.auto && m.beat_sync);
    assert_eq!(m.tick_transitions(true, false), Fader::Ticked);
    assert!(!m.auto && !m.beat_sync && m.playing);
}

#[test]
fn a_fade_that_is_done_lands_on_its_target() {
    let mut m = mixer(0);
    m.auto = true;
    m.beat_sync = true;
    assert_eq!(m.transition_driver(), Driver::BeatSync);
    assert_eq!(m.tick_transitions(true, false), Fader::Ticked);
    assert_eq!(m.tick_transitions(false, false), Fader::Stays);
    assert!(m.beat_sync);
    assert_eq!(m.tick_transitions(false, true), Fader::Target);
    assert!(!m.beat_sync && m.auto);
    assert_eq!(m.transition_driver(), Driver::Auto);
    assert_eq!(m.tick_transitions(true, false), Fader::Ticked);
    assert_eq!(m.tick_transitions(false, false), Fader::ClampedTarget);
    assert!(!m.auto);
    assert_eq!(m.transition_driver(), Driver::Nothing);
    assert_eq!(m.tick_transitions(false, false), Fader::Stays);
}

fn target_of(c: &Command) -> Tex {
    match c {
        Command::Draw { target, .. } => *target,
        Command::Clear { target } => *target,
        Command::Blend { target, .. } => *target,
        Command::Blit { target, .. } => *target,
    }
}

fn sampled(c: &Command) -> Vec<Tex> {
    match c {
        Command::Draw { inputs: Inputs::Engine { .. }, .. } => Vec::new(),
        Command::Draw { inputs: Inputs::One(a), .. } => vec![*a],
        Command::Draw { inputs: Inputs::Two(a, b), .. } => vec![*a, *b],
        Command::Clear { .. } => Vec::new(),
        Command::Blend { source, under, .. } => vec![*source, *under],
        Command::Blit { from, .. } => vec![*from],
    }
}

#[test]
fn a_frame_is_drawn_layer_by_layer() {
    let mut m = mixer(2);
    m.ensure_resources([4, 4]);
    m.channels[0].add_effect(Stub);
    m.add_master_effect(Stub);
    let shown = all_shown(&m);
    let frame = m.render_to(&shown, &vec![InputSelect::Slot2, InputSelect::Both], 3);
    let main = Tex::Channel { channel: 0, ping: false };
    let ping = Tex::Channel { channel: 0, ping: true };
    let other = Tex::Channel { channel: 1, ping: false };
    let master = Bus::Master;
    assert_eq!(
        frame.commands,
        vec![
            Command::Draw {
                effect: Owner::Channel { channel: 0 },
                inputs: Inputs::Engine { from: 1, to: 2 },
                target: main,
            },
            Command::Draw {
                effect: Owner::ChannelSlot { channel: 0, slot: 0 },
                inputs: Inputs::One(main),
                target: ping,
            },
            Command::Draw {
                effect: Owner::Channel { channel: 1 },
                inputs: Inputs::Engine { from: 0, to: 3 },
                target: other,
            },
            Command::Clear { target: Tex::AccA(master) },
            Command::Blend {
                bus: master,
                step: step(0, Source::Channel(0), StepKind::Layer, true),
                source: ping,
                under: Tex::AccA(master),
                target: Tex::AccB(master),
            },
            Command::Blend {
                bus: master,
                step: step(1, Source::Channel(1), StepKind::Layer, false),
                source: other,
                under: Tex::AccB(master),
                target: Tex::AccA(master),
            },
            Command::Draw {
                effect: Owner::MasterSlot { slot: 0 },
                inputs: Inputs::One(Tex::AccA(master)),
                target: Tex::Ping(master),
            },
            Command::Blit { from: Tex::Ping(master), target: Tex::Out(master) },
        ]
    );
    assert!(frame.stale.is_empty() && !frame.transition);
    assert_eq!(m.channels[0].last_output, LastOutput::Ping);
    assert_eq!(m.channels[1].last_output, LastOutput::Texture);
}

/// Every draw samples only what an earlier one wrote, and the frame is written last.
#[test]
fn nothing_stale_reaches_the_screen() {
    let mut m = mixer(7);
    group(&mut m, "a", &["c0", "c1"]);
    group(&mut m, "b", &["c2", "c3"]);
    group(&mut m, "inner", &["c4", "c5"]);
    assert!(m.set_group_parent("inner", Some("a")));
    m.decks = Some(["a".to_string(), "b".to_string()]);
    m.transition = Some(EffectSlot::new(Stub));
    m.groups[2].chain.push(EffectSlot::new(Stub));
    m.channels[3].add_effect(Stub);
    m.channels[3].add_effect(Stub);
    m.ensure_resources([4, 4]);
    for parked in [None, Some(0), Some(1)] {
        let mut shown = all_shown(&m);
        shown.parked = parked;
        let selects = vec![InputSelect::Slot1; 7];
        let frame = m.render_to(&shown, &selects, 1);
        let mut written: Vec<Tex> = Vec::new();
        for c in &frame.commands {
            for t in sampled(c) {
                assert!(written.contains(&t), "{c:?} samples {t:?} too early");
                assert_ne!(t, target_of(c));
            }
            written.push(target_of(c));
        }
        let out = Tex::Out(Bus::Master);
        assert_eq!(written.iter().filter(|t| **t == out).count(), 1);
        assert_eq!(written.last(), Some(&out));
        assert_eq!(frame.transition, parked.is_none());
        assert_eq!(written.contains(&Tex::Transition), parked.is_none());
        assert!(m.groups.iter().all(|g| g.rendered && g.allocated));
    }
}

/// What a layer of the one-pixel host below shows, and how it is keyed.
struct Grey {
    value: u8,
    key_mode: usize,
    key_threshold: f32,
}

/// Executes the draws of a frame on single grey pixels, `None` where they are transparent.
/// A luma key cuts a pixel that is darker than its threshold.
fn read_pixel(m: &mut rustjay::mixer::types::Mixer<Stub, Grey>) -> Option<u8> {
    m.ensure_resources([1, 1]);
    let shown = Shown {
        layers: vec![true; m.channels.len()],
        nested: vec![true; m.groups.len()],
        masters: vec![true; m.groups.len()],
        both: true,
        parked: None,
    };
    let frame = m.render_to(&shown, &vec![InputSelect::Slot1; m.channels.len()], 0);
    let mut written: Vec<(Tex, Option<u8>)> = Vec::new();
    for c in &frame.commands {
        let at = |t: &Tex| written.iter().rev().find(|(w, _)| w == t).and_then(|(_, px)| *px);
        let px = match c {
            Command::Draw { effect: Owner::Channel { channel }, .. } => {
                Some(m.channels[*channel].mix.value)
            }
            Command::Draw { .. } => panic!("no other effect draws"),
            Command::Clear { .. } => None,
            Command::Blit { from, .. } => at(from),
            Command::Blend { step, source, under, .. } => {
                let keyed_out = match (step.kind, step.source) {
                    (StepKind::Layer, Source::Channel(i)) => {
                        let key = &m.channels[i].mix;
                        let luma = at(source).map_or(0.0, |px| px as f32 / 255.0);
                        key.key_mode == 2 && luma < key.key_threshold
                    }
                    _ => false,
                };
                if keyed_out { at(under) } else { at(source).or(at(under)) }
            }
        };
        written.push((target_of(c), px));
    }
    written.iter().rev().find(|(t, _)| *t == Tex::Out(Bus::Master)).and_then(|(_, px)| *px)
}

/// A mid-grey layer luma-keyed above a threshold it does not reach must vanish, leaving the
/// white layer beneath, whether the two sit in the master stack or inside one group.
#[test]
fn a_grouped_layer_is_keyed_like_an_ungrouped_one() {
    for grouped in [false, true] {
        let mut mixer = rustjay::mixer::types::Mixer::new();
        mixer.use_crossfader = false;
        let grey = |value: u8| Grey { value, key_mode: 0, key_threshold: 0.0 };
        let base = Channel::new("base", "base", Stub, grey(0xFF));
        let mut top = Channel::new("top", "top", Stub, grey(0x80));
        // Grey 0x80 is luma 0.5, so at 0.9 the whole layer goes.
        top.mix.key_mode = 2;
        top.mix.key_threshold = 0.9;
        assert!(mixer.add_channel(base).is_ok());
        assert!(mixer.add_channel(top).is_ok());
        if grouped {
            mixer
                .group_channels("g", "Group", grey(0), &["base".to_string(), "top".to_string()])
                .expect("two layers make a group");
        }
        let px = read_pixel(&mut mixer);
        assert_eq!(
            px,
            Some(0xFF),
            "grouped={grouped}: the keyed-out grey layer must not cover the white one"
        );
        // Without its key the layer does cover it.
        mixer.channels[1].mix.key_mode = 0;
        assert_eq!(read_pixel(&mut mixer), Some(0x80));
    }
}

#[test]
fn a_layer_without_textures_draws_nothing() {
    let mut m = mixer(1);
    let shown = Shown { layers: vec![false], ..all_shown(&m) };
    let frame = m.render_to(&shown, &vec![InputSelect::Slot1], 0);
    assert_eq!(
        frame.commands,
        vec![
            Command::Clear { target: Tex::AccA(Bus::Master) },
            Command::Blit { from: Tex::AccA(Bus::Master), target: Tex::Out(Bus::Master) },
        ]
    );
}
