//! Channels, groups and the mixer that holds them.

use vstd::prelude::*;
use vstd::string::StrSliceExecFns;

use crate::mixer::nesting::{ChannelInfo, GroupInfo, Name};
use crate::mixer::text;
use crate::mixer::text::{channel_prefix_of, group_prefix_of, join};

verus! {

/// The most channels a mixer holds.
pub const MAX_CHANNELS: usize = 16;

/// The most groups a mixer holds. Group count, not layer count, is the memory
/// constraint: four full-resolution textures each.
pub const MAX_GROUPS: usize = 8;

/// Which engine input slot a channel samples from.
#[derive(Clone, Copy, Debug, PartialEq, Eq, Structural)]
pub enum InputSelect {
    Slot1,
    Slot2,
    Both,
}

impl Default for InputSelect {
    fn default() -> (s: InputSelect)
        ensures
            s == InputSelect::Slot1,
    {
        InputSelect::Slot1
    }
}

/// The position of a selection among the labels.
pub open spec fn input_index(s: InputSelect) -> usize {
    match s {
        InputSelect::Slot1 => 0,
        InputSelect::Slot2 => 1,
        InputSelect::Both => 2,
    }
}

/// The selection at a position; past the end it is both.
pub open spec fn input_at(v: usize) -> InputSelect {
    if v == 0 {
        InputSelect::Slot1
    } else if v == 1 {
        InputSelect::Slot2
    } else {
        InputSelect::Both
    }
}

/// Every selection is found again at its position.
pub proof fn law_input_roundtrip(s: InputSelect)
    ensures
        input_at(input_index(s)) == s,
{
}

impl InputSelect {
    /// The position of the selection among the labels.
    pub fn to_index(self) -> (v: usize)
        ensures
            v == input_index(self),
    {
        match self {
            InputSelect::Slot1 => 0,
            InputSelect::Slot2 => 1,
            InputSelect::Both => 2,
        }
    }

    /// The selection at a position; past the end it is both.
    pub fn from_index(v: usize) -> (s: InputSelect)
        ensures
            s == input_at(v),
    {
        if v == 0 {
            InputSelect::Slot1
        } else if v == 1 {
            InputSelect::Slot2
        } else {
            InputSelect::Both
        }
    }

    /// What the selections are called, in their order.
    pub fn labels() -> (l: [&'static str; 3])
        ensures
            l@ == seq!["Slot 1", "Slot 2", "Both"],
    {
        let l = ["Slot 1", "Slot 2", "Both"];
        assert(l@ =~= seq!["Slot 1", "Slot 2", "Both"]);
        l
    }
}

/// Whether a character is a lower-case hexadecimal digit.
pub open spec fn is_hex(c: char) -> bool {
    '0' <= c <= '9' || 'a' <= c <= 'f'
}

/// `Uuid::new_v4().simple().to_string()`: a random uuid in its simple form, which is
/// 32 lower-case hexadecimal digits. Which digits they are rests on chance.
#[verifier::external_body]
fn fresh_uuid() -> (s: String)
    ensures
        s@.len() == 32,
        forall|i: int| 0 <= i < 32 ==> is_hex(#[trigger] s@[i]),
{
    uuid::Uuid::new_v4().simple().to_string()
}

/// The short form of an identity: its first eight characters.
pub fn short_id(long: &str) -> (s: String)
    requires
        long@.len() >= 8,
    ensures
        s@ == long@.take(8),
{
    let s = long.substring_char(0, 8).to_owned();
    assert(s@ =~= long@.take(8));
    s
}

/// An effect in a chain with an on/off toggle and a stable uuid.
pub struct EffectSlot<E> {
    pub effect: E,
    pub enabled: bool,
    pub uuid: String,
    /// Shader source path, used to rebuild the chain across restarts.
    pub source_path: Option<String>,
}

impl<E> EffectSlot<E> {
    /// An enabled slot with an identity of its own: eight hexadecimal digits.
    pub fn new(effect: E) -> (slot: EffectSlot<E>)
        ensures
            slot.effect == effect,
            slot.enabled,
            slot.source_path is None,
            slot.uuid@.len() == 8,
            forall|i: int| 0 <= i < 8 ==> is_hex(#[trigger] slot.uuid@[i]),
    {
        let long = fresh_uuid();
        let uuid = short_id(long.as_str());
        EffectSlot { effect, enabled: true, uuid, source_path: None }
    }
}

/// Which of a channel's two textures holds its output.
#[derive(Copy, Clone, Debug, PartialEq, Eq, Structural)]
pub enum LastOutput {
    Texture,
    Ping,
}

/// The keys under which a channel's parameters are read each frame.
pub struct ChannelKeys {
    pub opacity: String,
    pub blend: String,
    pub input_select: String,
    pub key_mode: String,
    pub key_r: String,
    pub key_g: String,
    pub key_b: String,
    pub key_threshold: String,
    pub key_smoothness: String,
    pub key_luma_invert: String,
}

impl ChannelKeys {
    /// Whether every key is the prefix and the parameter's name.
    pub open spec fn under(&self, prefix: Name) -> bool {
        &&& self.opacity@ == prefix + "opacity"@
        &&& self.blend@ == prefix + "blend"@
        &&& self.input_select@ == prefix + "input_select"@
        &&& self.key_mode@ == prefix + "key_mode"@
        &&& self.key_r@ == prefix + "key_r"@
        &&& self.key_g@ == prefix + "key_g"@
        &&& self.key_b@ == prefix + "key_b"@
        &&& self.key_threshold@ == prefix + "key_threshold"@
        &&& self.key_smoothness@ == prefix + "key_smoothness"@
        &&& self.key_luma_invert@ == prefix + "key_luma_invert"@
    }

    fn new(prefix: &str) -> (keys: ChannelKeys)
        ensures
            keys.under(prefix@),
    {
        ChannelKeys {
            opacity: join(prefix, "opacity"),
            blend: join(prefix, "blend"),
            input_select: join(prefix, "input_select"),
            key_mode: join(prefix, "key_mode"),
            key_r: join(prefix, "key_r"),
            key_g: join(prefix, "key_g"),
            key_b: join(prefix, "key_b"),
            key_threshold: join(prefix, "key_threshold"),
            key_smoothness: join(prefix, "key_smoothness"),
            key_luma_invert: join(prefix, "key_luma_invert"),
        }
    }
}

/// One mixer channel: an effect plus how it is mixed into the composite.
///
/// `mix` is the host's: opacity, blend mode and key colour.
pub struct Channel<E, M> {
    /// Stable identity, persisted across presets.
    pub uuid: String,
    pub name: String,
    pub effect: E,
    /// Post-effect chain applied before compositing.
    pub chain: Vec<EffectSlot<E>>,
    pub mix: M,
    pub input_select: InputSelect,
    pub solo: bool,
    pub mute: bool,
    /// The bus group this layer belongs to, if any. Membership lives here rather than
    /// as a span on the group: a span has to be recomputed on every restack, and
    /// dropping a layer onto a group it already sits next to is then indistinguishable
    /// from not moving it at all.
    pub group: Option<String>,
    /// When `false` the channel is skipped entirely: no effect pass and no composite
    /// step.
    pub active: bool,
    /// 0 is no key, 1 chroma, 2 luma.
    pub key_mode: u32,
    pub luma_invert: bool,
    pub keys: ChannelKeys,
    /// The size its textures were made for; zero before there are any.
    pub size: [u32; 2],
    pub last_output: LastOutput,
    /// Last-seen count of enabled effects in the chain.
    pub last_enabled_count: usize,
}

/// The view of an optional name.
pub open spec fn name_of(s: Option<String>) -> Option<Name> {
    match s {
        Some(s) => Some(s@),
        None => None,
    }
}

impl<E, M> Channel<E, M> {
    /// What the nesting rules read of the channel.
    pub open spec fn info(&self) -> ChannelInfo {
        ChannelInfo {
            uuid: self.uuid@,
            group: name_of(self.group),
            solo: self.solo,
            mute: self.mute,
            active: self.active,
        }
    }

    /// A channel from an effect, with default mix settings. Its textures are allocated
    /// on first render, when the target size is known.
    pub fn new(uuid: &str, name: &str, effect: E, mix: M) -> (ch: Channel<E, M>)
        ensures
            ch.uuid@ == uuid@,
            ch.name@ == name@,
            ch.effect == effect,
            ch.mix == mix,
            ch.chain@ == Seq::<EffectSlot<E>>::empty(),
            ch.input_select == InputSelect::Slot1,
            !ch.solo && !ch.mute && ch.active,
            ch.group is None,
            ch.key_mode == 0 && !ch.luma_invert,
            ch.keys.under(text::channel_prefix(uuid@)),
            ch.size@ == seq![0u32, 0u32],
            ch.last_output == LastOutput::Texture,
            ch.last_enabled_count == 0,
    {
        let prefix = channel_prefix_of(uuid);
        let size: [u32; 2] = [0, 0];
        assert(size@ =~= seq![0u32, 0u32]);
        Channel {
            uuid: uuid.to_owned(),
            name: name.to_owned(),
            effect,
            chain: Vec::new(),
            mix,
            input_select: InputSelect::default(),
            solo: false,
            mute: false,
            group: None,
            active: true,
            key_mode: 0,
            luma_invert: false,
            keys: ChannelKeys::new(prefix.as_str()),
            size,
            last_output: LastOutput::Texture,
            last_enabled_count: 0,
        }
    }
}

/// A bus group: several layers composited together, then treated as one.
///
/// The members are composited into the group's own accumulator, the group's chain runs
/// over that result, and the result is blended into the master like a single layer.
///
/// Membership lives on the member: a channel names its group in [`Channel::group`], and
/// a group names its own in [`ChannelGroup::parent`]. A group is still a contiguous span
/// of the stack, so restacking a member out of the span takes it out of the group.
pub struct ChannelGroup<E, M> {
    /// Stable identity; the parameter prefix is `grp_<uuid>_`.
    pub uuid: String,
    pub name: String,
    /// The group this one nests inside, if any. `None` is top level: blended straight
    /// into the master composite. A group whose parent chain is broken or cyclic is
    /// treated as top level rather than dropped, so a bad edit costs the nesting, not
    /// the layers.
    pub parent: Option<String>,
    /// Effects applied to the composited members.
    pub chain: Vec<EffectSlot<E>>,
    pub mix: M,
    pub solo: bool,
    pub mute: bool,
    /// Collapsed in the UI.
    pub collapsed: bool,
    /// Whether the group's output holds this frame's image.
    pub rendered: bool,
    /// Whether the group holds its textures.
    pub allocated: bool,
    /// The size its textures were made for.
    pub size: [u32; 2],
    pub opacity_key: String,
    pub blend_key: String,
}

impl<E, M> ChannelGroup<E, M> {
    /// What the nesting rules read of the group.
    pub open spec fn info(&self) -> GroupInfo {
        GroupInfo {
            uuid: self.uuid@,
            parent: name_of(self.parent),
            solo: self.solo,
            mute: self.mute,
        }
    }

    /// An empty group at top level.
    pub fn new(uuid: &str, name: &str, mix: M) -> (g: ChannelGroup<E, M>)
        ensures
            g.fresh(uuid@, name@, mix),
    {
        let prefix = group_prefix_of(uuid);
        let size: [u32; 2] = [0, 0];
        assert(size@ =~= seq![0u32, 0u32]);
        ChannelGroup {
            uuid: uuid.to_owned(),
            name: name.to_owned(),
            parent: None,
            chain: Vec::new(),
            mix,
            solo: false,
            mute: false,
            collapsed: false,
            rendered: false,
            allocated: false,
            size,
            opacity_key: join(prefix.as_str(), "opacity"),
            blend_key: join(prefix.as_str(), "blend"),
        }
    }

    /// Whether this is a new group of that identity.
    pub open spec fn fresh(&self, uuid: Name, name: Name, mix: M) -> bool {
        &&& self.uuid@ == uuid
        &&& self.name@ == name
        &&& self.mix == mix
        &&& self.parent is None
        &&& self.chain@ == Seq::<EffectSlot<E>>::empty()
        &&& !self.solo && !self.mute && !self.collapsed && !self.rendered && !self.allocated
        &&& self.size@ == seq![0u32, 0u32]
        &&& self.opacity_key@ == text::group_prefix(uuid) + "opacity"@
        &&& self.blend_key@ == text::group_prefix(uuid) + "blend"@
    }
}

/// Multi-channel compositor.
pub struct Mixer<E, M> {
    pub channels: Vec<Channel<E, M>>,
    /// Bus groups over the channels.
    pub groups: Vec<ChannelGroup<E, M>>,
    /// Whether the crossfader scales the two channel opacities when there are exactly
    /// two channels. A host that treats channels as a free-standing layer stack turns
    /// this off.
    pub use_crossfader: bool,
    /// The two groups the crossfader transitions between, by uuid.
    ///
    /// When this and the transition are both set and both groups rendered, the two are
    /// combined by the transition effect and the result is blended into the master
    /// once, in place of blending each deck separately.
    pub decks: Option<[String; 2]>,
    /// The two-input effect combining the decks.
    pub transition: Option<EffectSlot<E>>,
    /// Master effect chain.
    pub master: Vec<EffectSlot<E>>,
    /// Whether the sequencer plays.
    pub playing: bool,
    /// Whether an automatic fade runs.
    pub auto: bool,
    /// Whether a beat-synced fade runs.
    pub beat_sync: bool,
    /// Whether the mixer holds its pipelines and textures.
    pub allocated: bool,
    /// The size they were made for.
    pub size: [u32; 2],
    /// Bumped whenever textures are reallocated or the channel set changes: a cached
    /// bind group is only valid within one generation.
    pub generation: u64,
}

impl<E, M> Mixer<E, M> {
    /// What the nesting rules read of the channels.
    pub open spec fn channel_infos(&self) -> Seq<ChannelInfo> {
        self.channels@.map_values(|c: Channel<E, M>| c.info())
    }

    /// What the nesting rules read of the groups.
    pub open spec fn group_infos(&self) -> Seq<GroupInfo> {
        self.groups@.map_values(|g: ChannelGroup<E, M>| g.info())
    }

    /// An empty mixer. Its resources are allocated on first render.
    pub fn new() -> (m: Mixer<E, M>)
        ensures
            m.channels@ == Seq::<Channel<E, M>>::empty(),
            m.groups@ == Seq::<ChannelGroup<E, M>>::empty(),
            m.use_crossfader,
            m.decks is None,
            m.transition is None,
            m.master@ == Seq::<EffectSlot<E>>::empty(),
            !m.playing && !m.auto && !m.beat_sync,
            !m.allocated,
            m.size@ == seq![0u32, 0u32],
            m.generation == 0,
    {
        let size: [u32; 2] = [0, 0];
        assert(size@ =~= seq![0u32, 0u32]);
        Mixer {
            channels: Vec::new(),
            groups: Vec::new(),
            use_crossfader: true,
            decks: None,
            transition: None,
            master: Vec::new(),
            playing: false,
            auto: false,
            beat_sync: false,
            allocated: false,
            size,
            generation: 0,
        }
    }

    /// Declares that the mapping from channel index to source texture has changed, so
    /// that the composite pipelines must rebuild their slot-keyed bind groups.
    pub fn invalidate_composite_cache(&mut self)
        ensures
            *final(self) == (Mixer {
                generation: next_generation(old(self).generation),
                ..*old(self)
            }),
    {
        self.generation = self.generation.wrapping_add(1);
    }
}

impl<E, M> Default for Mixer<E, M> {
    fn default() -> (m: Mixer<E, M>)
        ensures
            m.channels@.len() == 0 && m.groups@.len() == 0 && m.master@.len() == 0,
            m.use_crossfader,
            m.decks is None && m.transition is None,
            !m.playing && !m.auto && !m.beat_sync && !m.allocated,
            m.size@ == seq![0u32, 0u32],
            m.generation == 0,
    {
        Mixer::new()
    }
}

/// The generation after one bump.
pub open spec fn next_generation(g: u64) -> u64 {
    if g == u64::MAX {
        0
    } else {
        (g + 1) as u64
    }
}

/// The selections are numbered from the first input to both; any other number is both.
pub proof fn law_input_numbers(v: usize)
    ensures
        input_at(v) == InputSelect::Slot1 <==> v == 0,
        input_at(v) == InputSelect::Slot2 <==> v == 1,
        input_at(v) == InputSelect::Both <==> v >= 2,
        v <= 2 ==> input_index(input_at(v)) == v,
{
}

/// A bump makes the generation another one, and counts up until it wraps around.
pub proof fn law_generation_moves_on(g: u64)
    ensures
        next_generation(g) != g,
        next_generation(g) as int == (g + 1) % 0x1_0000_0000_0000_0000,
{
}

/// What the nesting rules read of the mixer is what its channels and groups hold.
pub proof fn law_infos_mirror_the_mixer<E, M>(m: Mixer<E, M>, i: int, g: int)
    requires
        0 <= i < m.channels@.len(),
        0 <= g < m.groups@.len(),
    ensures
        m.channel_infos().len() == m.channels@.len(),
        m.channel_infos()[i].uuid == m.channels@[i].uuid@,
        m.channel_infos()[i].group is None <==> m.channels@[i].group is None,
        m.channels@[i].group matches Some(name) ==> m.channel_infos()[i].group == Some(name@),
        m.channel_infos()[i].solo == m.channels@[i].solo,
        m.channel_infos()[i].mute == m.channels@[i].mute,
        m.channel_infos()[i].active == m.channels@[i].active,
        m.group_infos().len() == m.groups@.len(),
        m.group_infos()[g].uuid == m.groups@[g].uuid@,
        m.group_infos()[g].parent is None <==> m.groups@[g].parent is None,
        m.groups@[g].parent matches Some(name) ==> m.group_infos()[g].parent == Some(name@),
        m.group_infos()[g].solo == m.groups@[g].solo,
        m.group_infos()[g].mute == m.groups@[g].mute,
{
}

/// The hexadecimal digits are these sixteen, the letters small.
pub proof fn law_hex_digits(c: char)
    ensures
        is_hex(c) <==> "0123456789abcdef"@.contains(c),
{
    reveal_strlit("0123456789abcdef");
    let all = "0123456789abcdef"@;
    if is_hex(c) {
        let at = if c <= '9' {
            c as int - '0' as int
        } else {
            c as int - 'a' as int + 10
        };
        assert(all[at] == c);
    }
}

} // verus!
