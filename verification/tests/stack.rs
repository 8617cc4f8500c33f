//! The mixer's stack: channels, gates, groups and nesting.

use rustjay::mixer::layers::GroupItem;
use rustjay::mixer::stack::{MixerError, Side};
use rustjay::mixer::types::{
    short_id, Channel, ChannelGroup, EffectSlot, InputSelect, LastOutput, MAX_CHANNELS, MAX_GROUPS,
};
use rustjay::mixer::params::{ChannelParams, EffectParams};
use rustjay::mixer::resources::run_chain;

/// An effect that draws nothing.
struct Stub;

/// The mixer of these tests: a layer's mix is its opacity.
type Mixer = rustjay::mixer::types::Mixer<Stub, f32>;

fn channel(uuid: &str, name: &str) -> Channel<Stub, f32> {
    Channel::new(uuid, name, Stub, 1.0)
}

/// Per-channel opacity at a position of the crossfader.
fn opacities_at(m: &Mixer, crossfader: f32) -> Vec<f32> {
    let shares = m.effective_opacities();
    let mut out = Vec::new();
    for (i, o) in shares.iter().enumerate() {
        let own = if o.live { m.channels[i].mix.clamp(0.0, 1.0) } else { 0.0 };
        out.push(match o.side {
            Side::Whole => own,
            Side::Left => (1.0 - crossfader) * own,
            Side::Right => crossfader * own,
        });
    }
    out
}

/// Where the host's crossfader rests.
const CROSSFADER_AT_REST: f32 = 0.5;

fn effective_opacities(m: &Mixer) -> Vec<f32> {
    opacities_at(m, CROSSFADER_AT_REST)
}

fn names(items: &[&str]) -> Vec<String> {
    items.iter().map(|s| s.to_string()).collect()
}

fn group_of(m: &mut Mixer, uuid: &str, name: &str, members: &[&str]) -> Option<String> {
    m.group_channels(uuid, name, 1.0, &names(members))
}

fn ids(m: &Mixer) -> Vec<String> {
    m.channels.iter().map(|c| c.uuid.clone()).collect()
}

/// A layer stack of the named channels, bottom first.
fn stack(ids: &[&str]) -> Mixer {
    let mut mixer = Mixer::new();
    mixer.use_crossfader = false;
    for id in ids {
        mixer.add_channel(channel(id, id)).unwrap();
    }
    mixer
}

/// A layer stack of `n` channels named `ch0..`, bottom first.
fn numbered(n: usize) -> Mixer {
    let mut mixer = Mixer::new();
    mixer.use_crossfader = false;
    for i in 0..n {
        let id = format!("ch{i}");
        mixer.add_channel(channel(&id, &id)).unwrap();
    }
    mixer
}

/// A layer stack of `n` channels named `c0..`, bottom first.
fn mixer_with(n: usize) -> Mixer {
    let mut m = Mixer::new();
    m.use_crossfader = false;
    for i in 0..n {
        m.add_channel(channel(&format!("c{i}"), &format!("C{i}"))).unwrap();
    }
    m
}

fn group(m: &mut Mixer, uuid: &str, members: &[&str]) {
    assert!(group_of(m, uuid, uuid, members).is_some(), "grouping {uuid} failed");
}

fn two_decks() -> Mixer {
    let mut m = mixer_with(4);
    group_of(&mut m, "deck_a", "A", &["c0", "c1"]).unwrap();
    group_of(&mut m, "deck_b", "B", &["c2", "c3"]).unwrap();
    m.decks = Some(["deck_a".into(), "deck_b".into()]);
    m
}

/// What the effects of a mixer declare when none declares anything.
fn no_params(m: &Mixer) -> EffectParams {
    EffectParams {
        channels: m
            .channels
            .iter()
            .map(|c| ChannelParams {
                effect: Vec::new(),
                chain: c.chain.iter().map(|_| Vec::new()).collect(),
            })
            .collect(),
        groups: m.groups.iter().map(|g| g.chain.iter().map(|_| Vec::new()).collect()).collect(),
        transition: Vec::new(),
        master: m.master.iter().map(|_| Vec::new()).collect(),
    }
}

fn position(m: &Mixer, uuid: &str) -> usize {
    m.channels.iter().position(|c| c.uuid == uuid).unwrap()
}

#[test]
fn crossfader_splits_two_channel_opacity() {
    let mut mixer = Mixer::new();
    mixer.add_channel(channel("a", "A")).unwrap();
    mixer.add_channel(channel("b", "B")).unwrap();

    let eff = opacities_at(&mixer, 0.25);
    assert_eq!(eff.len(), 2);
    assert!((eff[0] - 0.75).abs() < 1e-6);
    assert!((eff[1] - 0.25).abs() < 1e-6);
}

#[test]
fn channel_count_clamped() {
    let mut mixer = Mixer::new();
    for i in 0..MAX_CHANNELS {
        assert!(mixer.add_channel(channel(&format!("{i}"), &format!("CH{i}"))).is_ok());
    }
    assert!(mixer.add_channel(channel("overflow", "OVF")).is_err());

    // Can't remove below 1
    for _ in 0..MAX_CHANNELS - 1 {
        mixer.remove_channel(0).unwrap();
    }
    assert!(mixer.remove_channel(0).is_err());
}

#[test]
fn the_stack_says_why_it_was_not_changed() {
    let mut mixer = stack(&["a", "b"]);
    assert!(matches!(mixer.remove_channel(2), Err(MixerError::IndexOutOfBounds)));
    assert!(mixer.remove_channel(1).is_ok());
    assert!(matches!(mixer.remove_channel(7), Err(MixerError::MinimumChannels)));
    for i in 1..MAX_CHANNELS {
        assert_eq!(mixer.add_channel(channel(&format!("x{i}"), "X")), Ok(i));
    }
    assert_eq!(mixer.add_channel(channel("y", "Y")), Err(MixerError::MaximumChannels));
    assert_eq!(mixer.channels.len(), MAX_CHANNELS);
    assert_eq!(MixerError::MaximumChannels.message(), "maximum channels (16)");
    assert_eq!(MixerError::MinimumChannels.message(), "minimum 1 channel");
    assert_eq!(MixerError::IndexOutOfBounds.message(), "channel index out of bounds");
}

#[test]
fn empty_chain_returns_input() {
    let plan = run_chain::<Stub>(&Vec::new());
    assert!(plan.passes.is_empty());
    assert_eq!(plan.output, LastOutput::Texture);
}

/// A mixer holds no modulation engine: these are all its fields. The crossfader's position
/// is the host's; it rests in the middle.
#[test]
fn mixer_no_longer_owns_modulation_engine() {
    let mixer = Mixer::new();
    assert!(mixer.channels.is_empty());
    let Mixer {
        channels: _,
        groups: _,
        use_crossfader: _,
        decks: _,
        transition: _,
        master: _,
        playing: _,
        auto: _,
        beat_sync: _,
        allocated: _,
        size: _,
        generation: _,
    } = mixer;
    let crossfader = CROSSFADER_AT_REST;
    assert_eq!(crossfader, 0.5);
}

#[test]
fn a_short_identity_is_the_start_of_the_long_one() {
    assert_eq!(short_id("0123456789abcdef"), "01234567");
    assert_eq!(short_id("abcdefgh"), "abcdefgh");
}

#[test]
fn a_new_mixer_is_empty() {
    let mixer = Mixer::default();
    assert!(mixer.channels.is_empty() && mixer.groups.is_empty() && mixer.master.is_empty());
    assert!(mixer.use_crossfader);
    assert!(!mixer.playing && !mixer.auto && !mixer.beat_sync);
    assert_eq!(mixer.generation, 0);
}

/// A host presenting channels as layers turns the crossfader off, or a
/// two-layer stack renders both layers at half opacity.
#[test]
fn use_crossfader_false_leaves_two_channel_opacities_alone() {
    let mut mixer = Mixer::new();
    mixer.add_channel(channel("a", "A")).unwrap();
    mixer.add_channel(channel("b", "B")).unwrap();
    mixer.channels[0].mix = 1.0;
    mixer.channels[1].mix = 1.0;

    // Default: the A/B behaviour every existing host relies on.
    assert_eq!(opacities_at(&mixer, 0.5), vec![0.5, 0.5]);

    mixer.use_crossfader = false;
    assert_eq!(
        opacities_at(&mixer, 0.5),
        vec![1.0, 1.0],
        "layers must composite at their own opacity"
    );
}

#[test]
fn reorder_channel_restacks_and_ignores_bad_indices() {
    let mut mixer = Mixer::new();
    for id in ["a", "b", "c"] {
        mixer.add_channel(channel(id, id)).unwrap();
    }

    mixer.reorder_channel(0, 2);
    assert_eq!(ids(&mixer), ["b", "c", "a"], "moved to the end");

    mixer.reorder_channel(2, 0);
    assert_eq!(ids(&mixer), ["a", "b", "c"], "and back to the front");

    // Out of range, or a no-op move, must leave the stack untouched.
    mixer.reorder_channel(9, 0);
    mixer.reorder_channel(1, 1);
    assert_eq!(ids(&mixer), ["a", "b", "c"]);

    // Clamped rather than panicking.
    mixer.reorder_channel(0, 99);
    assert_eq!(ids(&mixer), ["b", "c", "a"]);
}

/// The composite pipeline caches bind groups by channel *index* while
/// rewriting each index's opacity every frame. A restack that does not bump
/// the generation therefore paints layer N's fader onto layer N-1's pixels.
#[test]
fn restacking_invalidates_the_composite_cache() {
    let mut mixer = stack(&["a", "b", "c"]);
    let before = mixer.generation;
    mixer.reorder_channel(0, 2);
    assert_ne!(
        mixer.generation, before,
        "a restack remaps index → texture; the slot-keyed cache must be dropped"
    );

    // A no-op move changes nothing, so it need not invalidate.
    let settled = mixer.generation;
    mixer.reorder_channel(1, 1);
    assert_eq!(mixer.generation, settled);
}

/// Every group operation restacks the channels underneath it, so each one
/// remaps index to texture just as a plain restack does.
#[test]
fn group_operations_invalidate_the_composite_cache() {
    let mut mixer = stack(&["a", "b", "c"]);

    let before = mixer.generation;
    let g = group_of(&mut mixer, "g1", "Group", &["a", "c"]).expect("two layers group");
    assert_ne!(mixer.generation, before, "grouping restacks the members");

    let before = mixer.generation;
    mixer.set_channel_group("b", Some(g.clone()));
    assert_ne!(mixer.generation, before, "joining moves the layer");

    let before = mixer.generation;
    mixer.ungroup(&g);
    assert_ne!(mixer.generation, before, "dissolving drops the group's slots");
}

#[test]
fn mute_silences_only_that_layer() {
    let mut mixer = stack(&["a", "b", "c"]);
    mixer.channels[1].mute = true;
    assert_eq!(effective_opacities(&mixer), vec![1.0, 0.0, 1.0]);
}

#[test]
fn solo_silences_everything_else() {
    let mut mixer = stack(&["a", "b", "c"]);
    mixer.channels[2].solo = true;
    assert_eq!(effective_opacities(&mixer), vec![0.0, 0.0, 1.0]);
}

#[test]
fn several_solos_all_play() {
    let mut mixer = stack(&["a", "b", "c"]);
    mixer.channels[0].solo = true;
    mixer.channels[2].solo = true;
    assert_eq!(effective_opacities(&mixer), vec![1.0, 0.0, 1.0]);
}

/// The explicit switch wins over the implicit one, so a soloed layer that
/// is also muted stays silent rather than coming back.
#[test]
fn mute_wins_over_solo_on_the_same_layer() {
    let mut mixer = stack(&["a", "b"]);
    mixer.channels[0].solo = true;
    mixer.channels[0].mute = true;
    assert_eq!(effective_opacities(&mixer), vec![0.0, 0.0]);
    assert!(!Mixer::audible(&mixer.channels[0], true));
    mixer.channels[0].mute = false;
    assert!(Mixer::audible(&mixer.channels[0], true));
    assert!(!Mixer::audible(&mixer.channels[1], true));
    assert!(Mixer::audible(&mixer.channels[1], false));
}

/// The flags belong to the layer, not to its position in the stack.
#[test]
fn mute_follows_a_layer_through_a_restack() {
    let mut mixer = stack(&["a", "b", "c"]);
    mixer.channels[0].mute = true; // "a"
    mixer.reorder_channel(0, 2); // a moves to the top
    assert_eq!(ids(&mixer), ["b", "c", "a"]);
    assert_eq!(effective_opacities(&mixer), vec![1.0, 1.0, 0.0]);
}

/// Opacity is read from the engine under a per-layer key, so a restack must
/// not hand one layer's value to another.
#[test]
fn opacity_keys_travel_with_their_layer() {
    let mut mixer = stack(&["a", "b", "c"]);
    let keys = |m: &Mixer| -> Vec<String> {
        m.channels.iter().map(|c| c.keys.opacity.clone()).collect()
    };
    mixer.reorder_channel(0, 2);
    assert_eq!(keys(&mixer), ["ch_b_opacity", "ch_c_opacity", "ch_a_opacity"]);
}

#[test]
fn an_inactive_layer_is_silent() {
    let mut mixer = stack(&["a", "b"]);
    mixer.channels[1].active = false;
    assert_eq!(effective_opacities(&mixer), vec![1.0, 0.0]);
}

#[test]
fn grouping_marks_every_member() {
    let mut mixer = numbered(4);
    let g = group_of(&mut mixer, "g1", "Backdrop", &["ch1", "ch2"]).expect("grouped");
    assert_eq!(mixer.group_members(&g), vec![1, 2]);
    assert!(mixer.group_of(0).is_none());
    assert!(mixer.group_of(3).is_none());
}

/// Grouping gathers: members that were apart end up next to each other, or
/// a non-member would sit in the middle of a composite meant to be one
/// image.
#[test]
fn grouping_gathers_scattered_layers() {
    let mut mixer = numbered(4);
    group_of(&mut mixer, "g1", "A", &["ch0", "ch3"]).expect("grouped");
    let members = mixer.group_members("g1");
    assert_eq!(members.len(), 2);
    assert_eq!(members[1], members[0] + 1, "members ended up adjacent: {members:?}");
}

#[test]
fn grouping_gathers_to_the_topmost_member() {
    let mut mixer = numbered(5);
    group_of(&mut mixer, "g1", "A", &["ch3", "ch0"]).unwrap();
    assert_eq!(ids(&mixer), ["ch1", "ch2", "ch0", "ch3", "ch4"]);
    assert_eq!(mixer.group_of(2).unwrap().uuid, "g1");
}

#[test]
fn a_single_layer_is_not_a_group() {
    let mut mixer = numbered(2);
    assert!(group_of(&mut mixer, "g", "A", &["ch0"]).is_none());
}

/// Dropping a layer onto a group it already sits beside changes only its
/// membership, and a guard that skips "no position change" throws that away.
#[test]
fn joining_a_group_it_already_sits_beside_still_joins() {
    let mut mixer = numbered(3);
    group_of(&mut mixer, "g1", "A", &["ch1", "ch2"]).unwrap();
    assert!(mixer.group_of(0).is_none(), "ch0 starts outside");
    mixer.set_channel_group("ch0", Some("g1".into()));
    let members = mixer.group_members("g1");
    assert_eq!(members.len(), 3, "it joined: {members:?}");
}

#[test]
fn a_layer_joins_above_the_others() {
    let mut mixer = numbered(4);
    group_of(&mut mixer, "g1", "A", &["ch0", "ch1"]).unwrap();
    mixer.set_channel_group("ch3", Some("g1".into()));
    assert_eq!(ids(&mixer), ["ch0", "ch1", "ch3", "ch2"]);
    assert_eq!(mixer.group_members("g1"), vec![0, 1, 2]);
    // A layer that is not there changes nothing.
    let settled = mixer.generation;
    mixer.set_channel_group("nowhere", None);
    assert_eq!(mixer.generation, settled);
}

#[test]
fn leaving_a_group_keeps_the_layer() {
    let mut mixer = numbered(3);
    group_of(&mut mixer, "g1", "A", &["ch0", "ch1"]).unwrap();
    mixer.set_channel_group("ch0", None);
    assert_eq!(mixer.group_members("g1"), vec![1]);
    assert_eq!(ids(&mixer).len(), 3);
}

/// A group is a contiguous span: a member restacked within its reach stays, and one
/// restacked out of the span leaves.
#[test]
fn restacking_a_member_out_of_the_span_takes_it_out() {
    let mut mixer = numbered(5);
    group_of(&mut mixer, "g1", "A", &["ch0", "ch1", "ch2"]).unwrap();
    mixer.reorder_channel(0, 2);
    assert_eq!(ids(&mixer), ["ch1", "ch2", "ch0", "ch3", "ch4"]);
    assert_eq!(mixer.group_members("g1"), vec![0, 1, 2], "still in the span");
    mixer.reorder_channel(2, 3);
    assert_eq!(ids(&mixer), ["ch1", "ch2", "ch3", "ch0", "ch4"]);
    assert_eq!(mixer.group_members("g1"), vec![0, 1], "out of the span");
    assert!(mixer.group_of(3).is_none());
    // Moving a layer of no group changes nobody's membership.
    mixer.reorder_channel(4, 2);
    assert_eq!(mixer.group_members("g1"), vec![0, 1]);
}

/// A group whose layers came to lie apart reaches from the lowest to the highest: a member
/// that is restacked within that stays.
#[test]
fn a_scattered_group_keeps_a_member_within_its_reach() {
    let mut mixer = numbered(4);
    group_of(&mut mixer, "g1", "A", &["ch0", "ch1"]).unwrap();
    mixer.reorder_channel(2, 1);
    mixer.reorder_channel(3, 2);
    assert_eq!(ids(&mixer), ["ch0", "ch2", "ch3", "ch1"]);
    assert_eq!(mixer.group_members("g1"), vec![0, 3]);
    mixer.reorder_channel(0, 1);
    assert_eq!(ids(&mixer), ["ch2", "ch0", "ch3", "ch1"]);
    assert_eq!(mixer.group_members("g1"), vec![1, 3], "within the reach");
    mixer.reorder_channel(1, 3);
    assert_eq!(mixer.group_members("g1"), vec![2, 3], "up to its highest place");
    mixer.reorder_channel(3, 1);
    assert_eq!(mixer.group_of(1).map(|g| g.uuid.clone()), None, "below its lowest place");
}

/// What nests inside a group belongs to its span; the last one inside a group never
/// leaves it by moving.
#[test]
fn the_span_of_a_group_holds_what_nests_inside_it() {
    let mut mixer = numbered(5);
    group_of(&mut mixer, "inner", "I", &["ch2", "ch3"]).unwrap();
    group_of(&mut mixer, "outer", "O", &["ch0", "ch1"]).unwrap();
    mixer.set_group_parent("inner", Some("outer".into()));
    mixer.reorder_channel(0, 3);
    assert_eq!(ids(&mixer), ["ch1", "ch2", "ch3", "ch0", "ch4"]);
    assert_eq!(mixer.group_members("outer"), vec![0, 3]);
    mixer.set_channel_group("ch3", None);
    mixer.reorder_channel(1, 4);
    assert_eq!(mixer.group_members("inner"), vec![4]);
}

#[test]
fn ungrouping_frees_the_members() {
    let mut mixer = numbered(3);
    group_of(&mut mixer, "g1", "A", &["ch0", "ch1"]).unwrap();
    mixer.ungroup("g1");
    assert!(mixer.groups.is_empty());
    assert!(mixer.channels.iter().all(|c| c.group.is_none()));
    assert_eq!(mixer.channels.len(), 3, "members survive the group");
}

/// Dissolving a group of neighbours that were in no group leaves the stack as it was.
#[test]
fn ungrouping_undoes_grouping() {
    let mut mixer = numbered(6);
    group_of(&mut mixer, "g1", "A", &["ch4", "ch5"]).unwrap();
    group_of(&mut mixer, "g2", "B", &["ch2", "ch1", "ch3"]).unwrap();
    assert_eq!(mixer.group_members("g2"), vec![1, 2, 3]);
    let settled = mixer.generation;
    mixer.ungroup("g2");
    assert_eq!(ids(&mixer), ["ch0", "ch1", "ch2", "ch3", "ch4", "ch5"]);
    let groups: Vec<Option<String>> = mixer.channels.iter().map(|c| c.group.clone()).collect();
    assert_eq!(groups, [None, None, None, None, Some("g1".into()), Some("g1".into())]);
    assert_eq!(mixer.groups.len(), 1);
    assert_eq!(mixer.groups[0].uuid, "g1");
    assert_ne!(mixer.generation, settled);
}

/// Muting a group silences its members; soloing one silences everything
/// else while keeping its own members audible.
#[test]
fn a_group_gates_its_members() {
    let mut mixer = numbered(3);
    group_of(&mut mixer, "g1", "A", &["ch0", "ch1"]).unwrap();
    let members = mixer.group_members("g1");

    mixer.groups[0].mute = true;
    let eff = effective_opacities(&mixer);
    assert!(members.iter().all(|&i| eff[i] == 0.0), "muted: {eff:?}");

    mixer.groups[0].mute = false;
    mixer.groups[0].solo = true;
    let eff = effective_opacities(&mixer);
    assert!(members.iter().all(|&i| eff[i] > 0.0), "soloed members stay up");
    let outsider = (0..3).find(|i| !members.contains(i)).unwrap();
    assert_eq!(eff[outsider], 0.0, "everything else is silenced");
}

/// The block keeps its own order when it moves: one-at-a-time moves would
/// reverse it.
#[test]
fn a_group_moves_as_one_block() {
    let mut m = numbered(4);
    group_of(&mut m, "g1", "A", &["ch2", "ch3"]).unwrap();
    m.move_group("g1", "ch0");
    let order = ids(&m);
    let p2 = order.iter().position(|u| u == "ch2").unwrap();
    let p3 = order.iter().position(|u| u == "ch3").unwrap();
    assert_eq!(p3, p2 + 1, "members stayed adjacent and in order: {order:?}");
    assert_eq!(m.channels.len(), 4);
}

#[test]
fn a_group_lands_where_the_target_was() {
    let mut m = numbered(4);
    group_of(&mut m, "g1", "A", &["ch2", "ch3"]).unwrap();
    m.move_group("g1", "ch0");
    assert_eq!(ids(&m), ["ch2", "ch3", "ch0", "ch1"]);
    m.move_group("g1", "ch1");
    assert_eq!(ids(&m), ["ch0", "ch2", "ch3", "ch1"]);
    let settled = m.generation;
    m.move_group("g1", "nowhere");
    m.move_group("nothing", "ch0");
    assert_eq!(m.generation, settled);
}

#[test]
fn dropping_a_group_on_itself_changes_nothing() {
    let mut m = numbered(3);
    group_of(&mut m, "g1", "A", &["ch0", "ch1"]).unwrap();
    let before = ids(&m);
    m.move_group("g1", "ch0");
    assert_eq!(ids(&m), before);
}

/// A group effect with no descriptors shows an empty inspector.
#[test]
fn a_group_declares_its_mix_parameters() {
    let mut m = Mixer::new();
    m.use_crossfader = false;
    for id in ["a", "b"] {
        m.add_channel(channel(id, id)).unwrap();
    }
    group_of(&mut m, "g1", "Backdrop", &["a", "b"]).unwrap();
    let ids: Vec<String> = m.parameters(&no_params(&m)).into_iter().map(|p| p.id).collect();
    assert!(ids.iter().any(|i| i == "grp_g1_opacity"), "{ids:?}");
    assert!(ids.iter().any(|i| i == "grp_g1_blend"), "{ids:?}");
}

#[test]
fn a_group_nests_inside_another() {
    let mut m = mixer_with(4);
    group(&mut m, "inner", &["c0", "c1"]);
    group(&mut m, "outer", &["c2", "c3"]);
    assert!(m.set_group_parent("inner", Some("outer")));

    assert_eq!(m.group_depth("outer"), Some(0));
    assert_eq!(m.group_depth("inner"), Some(1));
    // Deepest first, or a parent samples a child that has not rendered.
    assert_eq!(m.group_render_order().first().map(String::as_str), Some("inner"));
    // Only the outermost group reaches the master.
    assert_eq!(m.top_level_ancestor("inner"), "outer");
}

#[test]
fn a_group_cannot_become_its_own_ancestor() {
    let mut m = mixer_with(4);
    group(&mut m, "a", &["c0", "c1"]);
    group(&mut m, "b", &["c2", "c3"]);
    assert!(m.set_group_parent("b", Some("a")));
    // b is inside a, so a cannot go inside b.
    assert!(!m.set_group_parent("a", Some("b")));
    assert!(!m.set_group_parent("a", Some("a")));
    assert!(!m.set_group_parent("a", Some("nonexistent")));
    assert_eq!(m.group_depth("a"), Some(0));
}

#[test]
fn a_cycle_does_not_hang_the_render_thread() {
    let mut m = mixer_with(4);
    group(&mut m, "a", &["c0", "c1"]);
    group(&mut m, "b", &["c2", "c3"]);
    // Force a cycle past the guard, as a corrupt scene file could.
    m.groups[0].parent = Some("b".into());
    m.groups[1].parent = Some("a".into());
    assert_eq!(m.group_depth("a"), None, "a cycle must not report a depth");
    // Bounded walks, and the layers stay audible rather than vanishing.
    assert_eq!(m.group_render_order().len(), 2);
    assert!(m.group_audible("a"));
}

/// Changes that are accepted keep every chain whole; a group can be lifted out again.
#[test]
fn accepted_nesting_keeps_every_chain_whole() {
    let mut m = mixer_with(6);
    group(&mut m, "a", &["c0", "c1"]);
    group(&mut m, "b", &["c2", "c3"]);
    group(&mut m, "c", &["c4", "c5"]);
    assert!(m.set_group_parent("b", Some("a")));
    assert!(m.set_group_parent("c", Some("b")));
    assert!(!m.set_group_parent("a", Some("c")));
    let depths = |m: &Mixer| [m.group_depth("a"), m.group_depth("b"), m.group_depth("c")];
    assert_eq!(depths(&m), [Some(0), Some(1), Some(2)]);
    assert_eq!(m.group_render_order(), ["c", "b", "a"]);
    assert!(m.set_group_parent("b", None));
    assert_eq!(depths(&m), [Some(0), Some(0), Some(1)]);
    assert!(!m.set_group_parent("nothing", None));
}

#[test]
fn a_missing_parent_leaves_the_group_at_top_level() {
    let mut m = mixer_with(2);
    group(&mut m, "g", &["c0", "c1"]);
    m.groups[0].parent = Some("gone".into());
    assert_eq!(m.group_depth("g"), None);
    assert_eq!(m.top_level_ancestor("g"), "g");
    assert!(m.group_audible("g"));
    assert_eq!(m.group_depth("gone"), None);
}

#[test]
fn the_group_cap_holds() {
    let mut m = mixer_with(16);
    for i in 0..MAX_GROUPS {
        let a = format!("c{}", i * 2);
        let b = format!("c{}", i * 2 + 1);
        assert!(
            m.group_channels(&format!("g{i}"), "g", 1.0, &[a, b]).is_some(),
            "group {i} should fit"
        );
    }
    assert!(
        m.group_channels("overflow", "g", 1.0, &["c0".into(), "c1".into()]).is_none(),
        "a group past the cap is four more full-resolution textures"
    );
}

#[test]
fn solo_inside_one_group_leaves_the_other_alone() {
    let mut m = mixer_with(4);
    group(&mut m, "deck_a", &["c0", "c1"]);
    group(&mut m, "deck_b", &["c2", "c3"]);

    // Audition one layer on deck A.
    m.channels[0].solo = true;
    let eff = effective_opacities(&m);

    assert!(eff[0] > 0.0, "the soloed layer plays");
    assert_eq!(eff[1], 0.0, "its sibling in deck A is silenced");
    assert!(
        eff[2] > 0.0 && eff[3] > 0.0,
        "deck B is untouched — soloing on the deck you are preparing must \
         not blank the deck that is on screen"
    );
}

#[test]
fn solo_on_a_top_level_group_silences_the_other_decks() {
    let mut m = mixer_with(5);
    group(&mut m, "deck_a", &["c0", "c1"]);
    group(&mut m, "deck_b", &["c2", "c3"]);
    m.groups.iter_mut().find(|g| g.uuid == "deck_a").unwrap().solo = true;

    let eff = effective_opacities(&m);
    let idx = |uuid: &str| position(&m, uuid);
    assert!(eff[idx("c0")] > 0.0 && eff[idx("c1")] > 0.0, "deck A plays");
    assert_eq!(eff[idx("c2")], 0.0, "deck B is silenced");
    assert_eq!(eff[idx("c3")], 0.0, "deck B is silenced");
    assert_eq!(eff[idx("c4")], 0.0, "so is the ungrouped layer");
}

#[test]
fn muting_an_outer_group_silences_what_nests_inside_it() {
    let mut m = mixer_with(4);
    group(&mut m, "inner", &["c0", "c1"]);
    group(&mut m, "outer", &["c2", "c3"]);
    assert!(m.set_group_parent("inner", Some("outer")));
    m.groups.iter_mut().find(|g| g.uuid == "outer").unwrap().mute = true;

    let eff = effective_opacities(&m);
    let idx = |uuid: &str| position(&m, uuid);
    assert_eq!(eff[idx("c0")], 0.0, "a nested member follows its ancestor");
    assert_eq!(eff[idx("c1")], 0.0);
}

#[test]
fn a_nested_group_composites_into_its_parent_not_the_master() {
    let mut m = mixer_with(4);
    group(&mut m, "inner", &["c0", "c1"]);
    group(&mut m, "outer", &["c2", "c3"]);
    assert!(m.set_group_parent("inner", Some("outer")));

    let items = m.group_items("outer");
    assert!(
        items.contains(&GroupItem::Group("inner".into())),
        "outer composites inner: {items:?}"
    );
    assert!(
        m.group_items("inner").iter().all(|i| matches!(i, GroupItem::Channel(_))),
        "inner holds only layers"
    );
    // Every layer, at any depth, resolves to the one group that reaches master.
    for c in &m.channels {
        assert_eq!(m.top_level_ancestor(c.group.as_deref().unwrap()), "outer");
    }
}

#[test]
fn a_nested_group_sits_where_its_topmost_layer_sits() {
    let mut m = mixer_with(5);
    group(&mut m, "outer", &["c0", "c1"]);
    group(&mut m, "inner", &["c2", "c3"]);
    assert!(m.set_group_parent("inner", Some("outer")));
    m.set_channel_group("c4", Some("outer".into()));
    // c4 joined right above c1, below the nested group.
    assert_eq!(ids(&m), ["c0", "c1", "c4", "c2", "c3"]);
    assert_eq!(
        m.group_items("outer"),
        vec![
            GroupItem::Channel(0),
            GroupItem::Channel(1),
            GroupItem::Channel(2),
            GroupItem::Group("inner".into()),
        ]
    );
    assert_eq!(m.group_stack_pos(&"outer".to_string()), Some(4));
    assert!(m.channel_in_group(4, &"outer".to_string()));
    assert!(!m.channel_in_group(0, &"inner".to_string()));
}

#[test]
fn a_layer_resolves_to_the_deck_holding_it() {
    let m = two_decks();
    assert_eq!(m.deck_of("deck_a"), Some(0));
    assert_eq!(m.deck_of("deck_b"), Some(1));
}

#[test]
fn a_layer_nested_deeper_still_resolves_to_its_deck() {
    let mut m = two_decks();
    // A group inside deck A: the case the whole nesting work exists for.
    m.add_channel(channel("c4", "C4")).unwrap();
    m.add_channel(channel("c5", "C5")).unwrap();
    group_of(&mut m, "inner", "Inner", &["c4", "c5"]).unwrap();
    assert!(m.set_group_parent("inner", Some("deck_a")));

    assert_eq!(
        m.deck_of("inner"),
        Some(0),
        "a nested group belongs to the deck above it, not to itself"
    );
    assert_eq!(m.deck_of_channel(position(&m, "c5")), Some(0));
    assert_eq!(m.deck_of_channel(position(&m, "c2")), Some(1));
    assert_eq!(m.deck_of_channel(99), None);
}

#[test]
fn without_decks_nothing_is_special_cased() {
    let mut m = two_decks();
    m.decks = None;
    assert_eq!(m.deck_of("deck_a"), None);
    assert_eq!(m.deck_of("deck_b"), None);
}

#[test]
fn the_decks_still_solo_independently() {
    // The nesting work's guarantee has to survive the deck roles.
    let mut m = two_decks();
    m.channels[0].solo = true;
    let eff = effective_opacities(&m);
    assert!(eff[0] > 0.0);
    assert_eq!(eff[1], 0.0, "silences its sibling in deck A");
    assert!(eff[2] > 0.0 && eff[3] > 0.0, "deck B keeps playing");
}

/// The solo of a nested group is heard inside the group around it and nowhere else.
#[test]
fn a_nested_solo_stays_inside() {
    let mut m = mixer_with(7);
    group(&mut m, "a", &["c0", "c1"]);
    group(&mut m, "b", &["c2", "c3"]);
    group(&mut m, "inner", &["c4", "c5"]);
    assert!(m.set_group_parent("inner", Some("a")));
    m.groups.iter_mut().find(|g| g.uuid == "inner").unwrap().solo = true;
    let eff = effective_opacities(&m);
    let idx = |uuid: &str| position(&m, uuid);
    assert!(eff[idx("c4")] > 0.0 && eff[idx("c5")] > 0.0, "the soloed group plays");
    assert_eq!((eff[idx("c0")], eff[idx("c1")]), (0.0, 0.0), "its siblings do not");
    assert!(["c2", "c3", "c6"].iter().all(|c| eff[idx(c)] > 0.0), "the rest is untouched");
}

#[test]
fn a_solo_lights_the_indicator_wherever_it_is() {
    let mut m = two_decks();
    assert!(!m.any_solo());
    m.channels[3].solo = true;
    assert!(m.any_solo());
    assert!(m.solo_active_in(&Some("deck_b".to_string())));
    assert!(!m.solo_active_in(&Some("deck_a".to_string())));
    assert!(!m.solo_active_in(&None));
    m.channels[3].solo = false;
    m.groups[0].solo = true;
    assert!(m.any_solo());
    assert!(m.solo_active_in(&None));
}

#[test]
fn a_slot_has_an_identity_of_its_own() {
    let a = EffectSlot::new(Stub);
    let b = EffectSlot::new(Stub);
    assert_eq!(a.uuid.len(), 8);
    assert!(a.uuid.chars().all(|c| c.is_ascii_digit() || ('a'..='f').contains(&c)));
    assert_ne!(a.uuid, b.uuid);
    assert!(a.enabled && a.source_path.is_none());
}

#[test]
fn an_effect_is_prefixed_by_where_it_sits() {
    let mut m = stack(&["a"]);
    let prefix = m.channels[0].add_effect(Stub);
    assert_eq!(prefix, format!("ch_a_fx{}_", m.channels[0].chain[0].uuid));
    let prefix = m.add_master_effect(Stub);
    assert_eq!(prefix, format!("master_fx{}_", m.master[0].uuid));
}

#[test]
fn effects_are_restacked_and_switched() {
    let mut m = stack(&["a"]);
    for _ in 0..3 {
        m.channels[0].add_effect(Stub);
        m.add_master_effect(Stub);
    }
    let chain: Vec<String> = m.channels[0].chain.iter().map(|s| s.uuid.clone()).collect();
    m.channels[0].reorder_effect(0, 9);
    let moved: Vec<String> = m.channels[0].chain.iter().map(|s| s.uuid.clone()).collect();
    assert_eq!(moved, [chain[1].clone(), chain[2].clone(), chain[0].clone()]);
    m.channels[0].reorder_effect(3, 0);
    m.channels[0].set_effect_enabled(1, false);
    m.channels[0].set_effect_enabled(9, false);
    let enabled: Vec<bool> = m.channels[0].chain.iter().map(|s| s.enabled).collect();
    assert_eq!(enabled, [true, false, true]);

    let master: Vec<String> = m.master.iter().map(|s| s.uuid.clone()).collect();
    m.reorder_master_effect(2, 0);
    let moved: Vec<String> = m.master.iter().map(|s| s.uuid.clone()).collect();
    assert_eq!(moved, [master[2].clone(), master[0].clone(), master[1].clone()]);
}

#[test]
fn input_selections_are_found_again() {
    for s in [InputSelect::Slot1, InputSelect::Slot2, InputSelect::Both] {
        assert_eq!(InputSelect::from_index(s.to_index()), s);
    }
    assert_eq!(InputSelect::from_index(9), InputSelect::Both);
    assert_eq!(InputSelect::default(), InputSelect::Slot1);
    assert_eq!(InputSelect::labels(), ["Slot 1", "Slot 2", "Both"]);
    assert_eq!(InputSelect::Slot1.span(0), (0, 0));
    assert_eq!(InputSelect::Slot1.span(3), (0, 1));
    assert_eq!(InputSelect::Slot2.span(1), (1, 1));
    assert_eq!(InputSelect::Slot2.span(3), (1, 2));
    assert_eq!(InputSelect::Both.span(3), (0, 3));
}

#[test]
fn a_group_starts_empty() {
    let g: ChannelGroup<Stub, f32> = ChannelGroup::new("g", "Group", 0.5);
    assert_eq!((g.opacity_key.as_str(), g.blend_key.as_str()), ("grp_g_opacity", "grp_g_blend"));
    assert!(g.parent.is_none() && g.chain.is_empty() && !g.rendered && !g.allocated);
    assert_eq!(g.mix, 0.5);
}
