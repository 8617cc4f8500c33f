//! The parameters that a mixer declares: its own, and those of every effect in it under
//! the prefix of where the effect sits.

use vstd::prelude::*;
use vstd::string::StrSliceExecFns;

use crate::mixer::nesting::Name;
use crate::mixer::text;
use crate::mixer::text::{
    channel_prefix_of, group_prefix_of, join, slot_prefix_of, TRANSITION_PREFIX,
};
use crate::mixer::types;
use crate::mixer::types::{Channel, ChannelGroup, EffectSlot, Mixer};

verus! {

/// A parameter that an effect declares for itself.
pub struct OwnParam {
    pub id: String,
    pub name: String,
}

/// What the effects of a channel declare.
pub struct ChannelParams {
    pub effect: Vec<OwnParam>,
    /// One list per slot of the chain.
    pub chain: Vec<Vec<OwnParam>>,
}

/// What all effects in a mixer declare.
pub struct EffectParams {
    pub channels: Vec<ChannelParams>,
    /// One list per slot of each group's chain.
    pub groups: Vec<Vec<Vec<OwnParam>>>,
    pub transition: Vec<OwnParam>,
    /// One list per slot of the master chain.
    pub master: Vec<Vec<OwnParam>>,
}

/// A setting of a channel.
#[derive(Debug, Clone, Copy, PartialEq, Eq, Structural)]
pub enum ChannelParam {
    Opacity,
    Blend,
    InputSelect,
    KeyMode,
    KeyR,
    KeyG,
    KeyB,
    KeyThreshold,
    KeySmoothness,
    LumaInvert,
}

/// A setting of a group.
#[derive(Debug, Clone, Copy, PartialEq, Eq, Structural)]
pub enum GroupParam {
    Opacity,
    Blend,
}

/// Where an effect sits.
#[derive(Debug, Clone, Copy, PartialEq, Eq, Structural)]
pub enum Owner {
    Channel { channel: usize },
    ChannelSlot { channel: usize, slot: usize },
    GroupSlot { group: usize, slot: usize },
    Transition,
    MasterSlot { slot: usize },
}

/// What a parameter sets.
#[derive(Debug, Clone, Copy, PartialEq, Eq, Structural)]
pub enum ParamSource {
    Crossfader,
    Channel { channel: usize, setting: ChannelParam },
    Group { group: usize, group_setting: GroupParam },
    /// A parameter of an effect, by its place among those the effect declares.
    Own { owner: Owner, index: usize },
}

/// One declared parameter. Its range, and the default of a level, are the host's.
pub struct Param {
    pub id: String,
    pub name: String,
    pub source: ParamSource,
    /// The default of a choice among labels.
    pub choice: Option<usize>,
}

/// A declared parameter by its contents.
pub struct ParamView {
    pub id: Name,
    pub name: Name,
    pub source: ParamSource,
    pub choice: Option<usize>,
}

impl View for Param {
    type V = ParamView;

    open spec fn view(&self) -> ParamView {
        ParamView { id: self.id@, name: self.name@, source: self.source, choice: self.choice }
    }
}

/// Parameters by their contents.
pub open spec fn views(params: Seq<Param>) -> Seq<ParamView> {
    params.map_values(|p: Param| p@)
}

/// What a setting's key ends in.
pub open spec fn channel_key(p: ChannelParam) -> Name {
    match p {
        ChannelParam::Opacity => "opacity"@,
        ChannelParam::Blend => "blend"@,
        ChannelParam::InputSelect => "input_select"@,
        ChannelParam::KeyMode => "key_mode"@,
        ChannelParam::KeyR => "key_r"@,
        ChannelParam::KeyG => "key_g"@,
        ChannelParam::KeyB => "key_b"@,
        ChannelParam::KeyThreshold => "key_threshold"@,
        ChannelParam::KeySmoothness => "key_smoothness"@,
        ChannelParam::LumaInvert => "key_luma_invert"@,
    }
}

/// What a setting is called behind the channel's name.
pub open spec fn channel_label(p: ChannelParam) -> Name {
    match p {
        ChannelParam::Opacity => " Opacity"@,
        ChannelParam::Blend => " Blend"@,
        ChannelParam::InputSelect => " Input"@,
        ChannelParam::KeyMode => " Key"@,
        ChannelParam::KeyR => " Key R"@,
        ChannelParam::KeyG => " Key G"@,
        ChannelParam::KeyB => " Key B"@,
        ChannelParam::KeyThreshold => " Key Threshold"@,
        ChannelParam::KeySmoothness => " Key Smoothness"@,
        ChannelParam::LumaInvert => " Luma Invert"@,
    }
}

impl ChannelParam {
    fn key(self) -> (s: &'static str)
        ensures
            s@ == channel_key(self),
    {
        match self {
            ChannelParam::Opacity => "opacity",
            ChannelParam::Blend => "blend",
            ChannelParam::InputSelect => "input_select",
            ChannelParam::KeyMode => "key_mode",
            ChannelParam::KeyR => "key_r",
            ChannelParam::KeyG => "key_g",
            ChannelParam::KeyB => "key_b",
            ChannelParam::KeyThreshold => "key_threshold",
            ChannelParam::KeySmoothness => "key_smoothness",
            ChannelParam::LumaInvert => "key_luma_invert",
        }
    }

    fn label(self) -> (s: &'static str)
        ensures
            s@ == channel_label(self),
    {
        match self {
            ChannelParam::Opacity => " Opacity",
            ChannelParam::Blend => " Blend",
            ChannelParam::InputSelect => " Input",
            ChannelParam::KeyMode => " Key",
            ChannelParam::KeyR => " Key R",
            ChannelParam::KeyG => " Key G",
            ChannelParam::KeyB => " Key B",
            ChannelParam::KeyThreshold => " Key Threshold",
            ChannelParam::KeySmoothness => " Key Smoothness",
            ChannelParam::LumaInvert => " Luma Invert",
        }
    }
}

/// What the key modes are called, in their order.
pub fn key_mode_labels() -> (l: [&'static str; 3])
    ensures
        l@ == seq!["None", "Chroma", "Luma"],
{
    let l = ["None", "Chroma", "Luma"];
    assert(l@ =~= seq!["None", "Chroma", "Luma"]);
    l
}

/// The default of a channel's setting, where it is a choice among labels.
pub open spec fn channel_choice<E, M>(ch: Channel<E, M>, p: ChannelParam) -> Option<usize> {
    match p {
        ChannelParam::InputSelect => Some(types::input_index(ch.input_select)),
        ChannelParam::KeyMode => Some(ch.key_mode as usize),
        ChannelParam::LumaInvert => Some(
            if ch.luma_invert {
                1
            } else {
                0
            },
        ),
        _ => None,
    }
}

/// A channel's setting as a parameter.
pub open spec fn channel_param<E, M>(
    ch: Channel<E, M>,
    channel: usize,
    param: ChannelParam,
) -> ParamView {
    ParamView {
        id: text::channel_prefix(ch.uuid@) + channel_key(param),
        name: ch.name@ + channel_label(param),
        source: ParamSource::Channel { channel, setting: param },
        choice: channel_choice(ch, param),
    }
}

/// A name without the underscores at its end.
pub open spec fn trimmed(s: Name) -> Name
    decreases s.len(),
{
    if s.len() > 0 && s.last() == '_' {
        trimmed(s.drop_last())
    } else {
        s
    }
}

/// An effect's own parameter under a prefix: `<prefix><id>`, called `<name> [<prefix>]`
/// without the prefix's underscores at its end.
pub open spec fn prefixed(prefix: Name, own: OwnParam, source: ParamSource) -> ParamView {
    ParamView {
        id: prefix + own.id@,
        name: own.name@ + " ["@ + trimmed(prefix) + "]"@,
        source,
        choice: None,
    }
}

/// An effect's own parameters under a prefix.
pub open spec fn own_params(prefix: Name, own: Seq<OwnParam>, owner: Owner) -> Seq<ParamView> {
    Seq::new(
        own.len(),
        |k: int| prefixed(prefix, own[k], ParamSource::Own { owner, index: k as usize }),
    )
}

/// The own parameters of the first `n` slots of a channel's chain.
pub open spec fn channel_slots<E, M>(
    ch: Channel<E, M>,
    lists: Seq<Vec<OwnParam>>,
    channel: usize,
    n: nat,
) -> Seq<ParamView>
    decreases n,
{
    if n == 0 {
        Seq::empty()
    } else {
        channel_slots(ch, lists, channel, (n - 1) as nat) + own_params(
            text::slot_prefix(text::channel_prefix(ch.uuid@), ch.chain@[n - 1].uuid@),
            lists[n - 1]@,
            Owner::ChannelSlot { channel, slot: (n - 1) as usize },
        )
    }
}

/// The own parameters of the first `n` slots of a group's chain.
pub open spec fn group_slots<E, M>(
    g: ChannelGroup<E, M>,
    lists: Seq<Vec<OwnParam>>,
    group: usize,
    n: nat,
) -> Seq<ParamView>
    decreases n,
{
    if n == 0 {
        Seq::empty()
    } else {
        group_slots(g, lists, group, (n - 1) as nat) + own_params(
            text::slot_prefix(text::group_prefix(g.uuid@), g.chain@[n - 1].uuid@),
            lists[n - 1]@,
            Owner::GroupSlot { group, slot: (n - 1) as usize },
        )
    }
}

/// The own parameters of the first `n` slots of the master chain.
pub open spec fn master_slots<E>(
    master: Seq<EffectSlot<E>>,
    lists: Seq<Vec<OwnParam>>,
    n: nat,
) -> Seq<ParamView>
    decreases n,
{
    if n == 0 {
        Seq::empty()
    } else {
        master_slots(master, lists, (n - 1) as nat) + own_params(
            text::slot_prefix("master_"@, master[n - 1].uuid@),
            lists[n - 1]@,
            Owner::MasterSlot { slot: (n - 1) as usize },
        )
    }
}

/// The settings of a channel, in the order in which they are declared.
pub open spec fn channel_settings<E, M>(ch: Channel<E, M>, i: usize) -> Seq<ParamView> {
    seq![
        channel_param(ch, i, ChannelParam::Opacity),
        channel_param(ch, i, ChannelParam::Blend),
        channel_param(ch, i, ChannelParam::InputSelect),
        channel_param(ch, i, ChannelParam::KeyMode),
        channel_param(ch, i, ChannelParam::KeyR),
        channel_param(ch, i, ChannelParam::KeyG),
        channel_param(ch, i, ChannelParam::KeyB),
        channel_param(ch, i, ChannelParam::KeyThreshold),
        channel_param(ch, i, ChannelParam::KeySmoothness),
        channel_param(ch, i, ChannelParam::LumaInvert),
    ]
}

/// All parameters of a channel: its settings, its effect's and its chain's.
pub open spec fn channel_block<E, M>(
    ch: Channel<E, M>,
    own: ChannelParams,
    i: usize,
) -> Seq<ParamView> {
    channel_settings(ch, i) + own_params(
        text::channel_prefix(ch.uuid@),
        own.effect@,
        Owner::Channel { channel: i },
    ) + channel_slots(ch, own.chain@, i, ch.chain@.len())
}

/// The settings of a group.
pub open spec fn group_settings<E, M>(g: ChannelGroup<E, M>, group: usize) -> Seq<ParamView> {
    seq![
        ParamView {
            id: text::group_prefix(g.uuid@) + "opacity"@,
            name: g.name@ + " Opacity"@,
            source: ParamSource::Group { group, group_setting: GroupParam::Opacity },
            choice: None,
        },
        ParamView {
            id: text::group_prefix(g.uuid@) + "blend"@,
            name: g.name@ + " Blend"@,
            source: ParamSource::Group { group, group_setting: GroupParam::Blend },
            choice: None,
        },
    ]
}

/// All parameters of a group: its settings and its chain's.
pub open spec fn group_block<E, M>(
    g: ChannelGroup<E, M>,
    own: Seq<Vec<OwnParam>>,
    i: usize,
) -> Seq<ParamView> {
    group_settings(g, i) + group_slots(g, own, i, g.chain@.len())
}

/// The crossfader as a parameter.
pub open spec fn crossfader_param() -> ParamView {
    ParamView {
        id: "crossfader"@,
        name: "Crossfader"@,
        source: ParamSource::Crossfader,
        choice: None,
    }
}

impl<E, M> Mixer<E, M> {
    /// Whether the lists have the shape of the mixer: one for every effect in it.
    pub open spec fn lists_fit(&self, own: EffectParams) -> bool {
        &&& own.channels@.len() == self.channels@.len()
        &&& forall|i: int|
            0 <= i < self.channels@.len() ==> (#[trigger] own.channels@[i]).chain@.len()
                == self.channels@[i].chain@.len()
        &&& own.groups@.len() == self.groups@.len()
        &&& forall|i: int|
            0 <= i < self.groups@.len() ==> (#[trigger] own.groups@[i])@.len()
                == self.groups@[i].chain@.len()
        &&& own.master@.len() == self.master@.len()
    }

    /// The parameters of the first `n` channels.
    pub open spec fn channel_blocks(&self, own: EffectParams, n: nat) -> Seq<ParamView>
        decreases n,
    {
        if n == 0 {
            Seq::empty()
        } else {
            self.channel_blocks(own, (n - 1) as nat) + channel_block(
                self.channels@[n - 1],
                own.channels@[n - 1],
                (n - 1) as usize,
            )
        }
    }

    /// The parameters of the first `n` groups.
    pub open spec fn group_blocks(&self, own: EffectParams, n: nat) -> Seq<ParamView>
        decreases n,
    {
        if n == 0 {
            Seq::empty()
        } else {
            self.group_blocks(own, (n - 1) as nat) + group_block(
                self.groups@[n - 1],
                own.groups@[n - 1]@,
                (n - 1) as usize,
            )
        }
    }

    /// The parameters of the transition effect, if there is one.
    pub open spec fn transition_block(&self, own: EffectParams) -> Seq<ParamView> {
        if self.transition is Some {
            own_params(TRANSITION_PREFIX@, own.transition@, Owner::Transition)
        } else {
            Seq::empty()
        }
    }

    /// All parameters: the crossfader, the channels', the groups', the transition's and
    /// the master chain's.
    pub open spec fn all_params(&self, own: EffectParams) -> Seq<ParamView> {
        seq![crossfader_param()] + self.channel_blocks(own, self.channels@.len())
            + self.group_blocks(own, self.groups@.len()) + self.transition_block(own)
            + master_slots(self.master@, own.master@, self.master@.len())
    }

    /// Declares all parameters, given what each effect in the mixer declares for itself.
    pub fn parameters(&self, own: &EffectParams) -> (out: Vec<Param>)
        requires
            self.lists_fit(*own),
        ensures
            views(out@) == self.all_params(*own),
    {
        let mut out: Vec<Param> = Vec::new();
        out.push(
            Param {
                id: "crossfader".to_owned(),
                name: "Crossfader".to_owned(),
                source: ParamSource::Crossfader,
                choice: None,
            },
        );
        let ghost head = seq![crossfader_param()];
        assert(views(out@) =~= head + self.channel_blocks(*own, 0));
        let mut i: usize = 0;
        while i < self.channels.len()
            invariant
                i <= self.channels.len(),
                self.lists_fit(*own),
                views(out@) == head + self.channel_blocks(*own, i as nat),
            decreases self.channels.len() - i,
        {
            push_channel(&mut out, &self.channels[i], &own.channels[i], i);
            i = i + 1;
            assert(views(out@) =~= head + self.channel_blocks(*own, i as nat));
        }
        let ghost upper = head + self.channel_blocks(*own, self.channels@.len());
        let mut g: usize = 0;
        assert(views(out@) =~= upper + self.group_blocks(*own, 0));
        while g < self.groups.len()
            invariant
                g <= self.groups.len(),
                self.lists_fit(*own),
                views(out@) == upper + self.group_blocks(*own, g as nat),
            decreases self.groups.len() - g,
        {
            push_group(&mut out, &self.groups[g], &own.groups[g], g);
            g = g + 1;
            assert(views(out@) =~= upper + self.group_blocks(*own, g as nat));
        }
        let ghost before = views(out@);
        if self.transition.is_some() {
            push_own(&mut out, TRANSITION_PREFIX, &own.transition, Owner::Transition);
        }
        assert(views(out@) =~= before + self.transition_block(*own));
        let ghost lower = views(out@);
        let mut s: usize = 0;
        assert(views(out@) =~= lower + master_slots(self.master@, own.master@, 0));
        while s < self.master.len()
            invariant
                s <= self.master.len(),
                self.lists_fit(*own),
                views(out@) == lower + master_slots(self.master@, own.master@, s as nat),
            decreases self.master.len() - s,
        {
            let prefix = slot_prefix_of("master_", self.master[s].uuid.as_str());
            push_own(&mut out, prefix.as_str(), &own.master[s], Owner::MasterSlot { slot: s });
            s = s + 1;
            assert(views(out@) =~= lower + master_slots(self.master@, own.master@, s as nat));
        }
        out
    }
}

/// The name without the underscores at its end.
fn trim_underscores(s: &str) -> (t: String)
    ensures
        t@ == trimmed(s@),
{
    let mut n: usize = s.unicode_len();
    assert(s@.take(n as int) =~= s@);
    while n > 0 && s.get_char(n - 1) == '_'
        invariant
            n <= s@.len(),
            trimmed(s@) == trimmed(s@.take(n as int)),
        decreases n,
    {
        assert(s@.take(n as int).drop_last() =~= s@.take(n - 1));
        n = n - 1;
    }
    proof {
        if n > 0 {
            assert(s@.take(n as int).last() == s@[n - 1]);
        }
        assert(s@.subrange(0, n as int) =~= s@.take(n as int));
    }
    s.substring_char(0, n).to_owned()
}

/// An effect's own parameter under a prefix.
fn prefix_descriptor(prefix: &str, own: &OwnParam, source: ParamSource) -> (p: Param)
    ensures
        p@ == prefixed(prefix@, *own, source),
{
    let tail = trim_underscores(prefix);
    let name = join(
        join(join(own.name.as_str(), " [").as_str(), tail.as_str()).as_str(),
        "]",
    );
    Param { id: join(prefix, own.id.as_str()), name, source, choice: None }
}

fn push_own(out: &mut Vec<Param>, prefix: &str, own: &Vec<OwnParam>, owner: Owner)
    ensures
        views(final(out)@) == views(old(out)@) + own_params(prefix@, own@, owner),
{
    let ghost base = views(out@);
    let ghost all = own_params(prefix@, own@, owner);
    let mut k: usize = 0;
    assert(base + all.take(0) =~= base);
    while k < own.len()
        invariant
            k <= own.len(),
            all == own_params(prefix@, own@, owner),
            views(out@) == base + all.take(k as int),
        decreases own.len() - k,
    {
        let ghost before = out@;
        let p = prefix_descriptor(prefix, &own[k], ParamSource::Own { owner, index: k });
        out.push(p);
        assert(views(out@) =~= views(before).push(p@));
        k = k + 1;
        assert(views(out@) =~= base + all.take(k as int));
    }
    assert(all.take(k as int) =~= all);
}

fn push_setting<E, M>(out: &mut Vec<Param>, ch: &Channel<E, M>, i: usize, param: ChannelParam)
    ensures
        views(final(out)@) == views(old(out)@).push(channel_param(*ch, i, param)),
{
    let prefix = channel_prefix_of(ch.uuid.as_str());
    let choice: Option<usize> = match param {
        ChannelParam::InputSelect => Some(ch.input_select.to_index()),
        ChannelParam::KeyMode => Some(ch.key_mode as usize),
        ChannelParam::LumaInvert => Some(
            if ch.luma_invert {
                1
            } else {
                0
            },
        ),
        _ => None,
    };
    let p = Param {
        id: join(prefix.as_str(), param.key()),
        name: join(ch.name.as_str(), param.label()),
        source: ParamSource::Channel { channel: i, setting: param },
        choice,
    };
    out.push(p);
    assert(views(out@) =~= views(old(out)@).push(p@));
}

fn push_channel<E, M>(out: &mut Vec<Param>, ch: &Channel<E, M>, own: &ChannelParams, i: usize)
    requires
        own.chain@.len() == ch.chain@.len(),
    ensures
        views(final(out)@) == views(old(out)@) + channel_block(*ch, *own, i),
{
    let ghost base = views(out@);
    push_setting(out, ch, i, ChannelParam::Opacity);
    push_setting(out, ch, i, ChannelParam::Blend);
    push_setting(out, ch, i, ChannelParam::InputSelect);
    push_setting(out, ch, i, ChannelParam::KeyMode);
    push_setting(out, ch, i, ChannelParam::KeyR);
    push_setting(out, ch, i, ChannelParam::KeyG);
    push_setting(out, ch, i, ChannelParam::KeyB);
    push_setting(out, ch, i, ChannelParam::KeyThreshold);
    push_setting(out, ch, i, ChannelParam::KeySmoothness);
    push_setting(out, ch, i, ChannelParam::LumaInvert);
    assert(views(out@) =~= base + channel_settings(*ch, i));
    let prefix = channel_prefix_of(ch.uuid.as_str());
    push_own(out, prefix.as_str(), &own.effect, Owner::Channel { channel: i });
    let ghost upper = views(out@);
    let mut s: usize = 0;
    assert(views(out@) =~= upper + channel_slots(*ch, own.chain@, i, 0));
    while s < ch.chain.len()
        invariant
            s <= ch.chain.len(),
            own.chain@.len() == ch.chain@.len(),
            prefix@ == text::channel_prefix(ch.uuid@),
            views(out@) == upper + channel_slots(*ch, own.chain@, i, s as nat),
        decreases ch.chain.len() - s,
    {
        let under = slot_prefix_of(prefix.as_str(), ch.chain[s].uuid.as_str());
        push_own(out, under.as_str(), &own.chain[s], Owner::ChannelSlot { channel: i, slot: s });
        s = s + 1;
        assert(views(out@) =~= upper + channel_slots(*ch, own.chain@, i, s as nat));
    }
    assert(views(out@) =~= base + channel_block(*ch, *own, i));
}

fn push_group<E, M>(
    out: &mut Vec<Param>,
    g: &ChannelGroup<E, M>,
    own: &Vec<Vec<OwnParam>>,
    group: usize,
)
    requires
        own@.len() == g.chain@.len(),
    ensures
        views(final(out)@) == views(old(out)@) + group_block(*g, own@, group),
{
    let ghost base = views(out@);
    let prefix = group_prefix_of(g.uuid.as_str());
    out.push(
        Param {
            id: join(prefix.as_str(), "opacity"),
            name: join(g.name.as_str(), " Opacity"),
            source: ParamSource::Group { group, group_setting: GroupParam::Opacity },
            choice: None,
        },
    );
    out.push(
        Param {
            id: join(prefix.as_str(), "blend"),
            name: join(g.name.as_str(), " Blend"),
            source: ParamSource::Group { group, group_setting: GroupParam::Blend },
            choice: None,
        },
    );
    assert(views(out@) =~= base + group_settings(*g, group));
    let ghost upper = views(out@);
    let mut s: usize = 0;
    assert(views(out@) =~= upper + group_slots(*g, own@, group, 0));
    while s < g.chain.len()
        invariant
            s <= g.chain.len(),
            own@.len() == g.chain@.len(),
            prefix@ == text::group_prefix(g.uuid@),
            views(out@) == upper + group_slots(*g, own@, group, s as nat),
        decreases g.chain.len() - s,
    {
        let under = slot_prefix_of(prefix.as_str(), g.chain[s].uuid.as_str());
        push_own(out, under.as_str(), &own[s], Owner::GroupSlot { group, slot: s });
        s = s + 1;
        assert(views(out@) =~= upper + group_slots(*g, own@, group, s as nat));
    }
    assert(views(out@) =~= base + group_block(*g, own@, group));
}

/// Every group declares its mix parameters.
pub proof fn law_group_is_declared<E, M>(m: Mixer<E, M>, own: EffectParams, g: int)
    requires
        0 <= g < m.groups@.len(),
    ensures
        m.all_params(own).contains(group_settings(m.groups@[g], g as usize)[0]),
        m.all_params(own).contains(group_settings(m.groups@[g], g as usize)[1]),
{
    let all = m.all_params(own);
    let part = m.group_blocks(own, m.groups@.len());
    let at = 1 + m.channel_blocks(own, m.channels@.len()).len();
    let k = lemma_group_block(m, own, m.groups@.len(), g);
    let block = group_block(m.groups@[g], own.groups@[g]@, g as usize);
    assert(part[k] == block[0] && part[k + 1] == block[1]);
    assert(all[at + k] == part[k] && all[at + k + 1] == part[k + 1]);
}

proof fn lemma_group_block<E, M>(m: Mixer<E, M>, own: EffectParams, n: nat, g: int) -> (k: int)
    requires
        0 <= g < n,
    ensures
        ({
            let block = group_block(m.groups@[g], own.groups@[g]@, g as usize);
            &&& 0 <= k
            &&& k + block.len() <= m.group_blocks(own, n).len()
            &&& forall|t: int|
                0 <= t < block.len() ==> m.group_blocks(own, n)[k + t] == #[trigger] block[t]
        }),
    decreases n,
{
    let before = m.group_blocks(own, (n - 1) as nat);
    let block = group_block(m.groups@[g], own.groups@[g]@, g as usize);
    if g == n - 1 {
        before.len() as int
    } else {
        let k = lemma_group_block(m, own, (n - 1) as nat, g);
        assert forall|t: int| 0 <= t < block.len() implies m.group_blocks(own, n)[k + t]
            == #[trigger] block[t] by {
            assert(before[k + t] == block[t]);
        }
        k
    }
}

/// Every channel declares all its settings, under the keys that it is read by.
pub proof fn law_channel_is_declared<E, M>(m: Mixer<E, M>, own: EffectParams, i: int, t: int)
    requires
        0 <= i < m.channels@.len(),
        0 <= t < 10,
    ensures
        m.all_params(own).contains(channel_settings(m.channels@[i], i as usize)[t]),
{
    let all = m.all_params(own);
    let part = m.channel_blocks(own, m.channels@.len());
    let k = lemma_channel_block(m, own, m.channels@.len(), i);
    let block = channel_block(m.channels@[i], own.channels@[i], i as usize);
    assert(block[t] == channel_settings(m.channels@[i], i as usize)[t]);
    assert(part[k + t] == block[t]);
    assert(all[1 + k + t] == part[k + t]);
}

proof fn lemma_channel_block<E, M>(m: Mixer<E, M>, own: EffectParams, n: nat, i: int) -> (k: int)
    requires
        0 <= i < n,
    ensures
        ({
            let block = channel_block(m.channels@[i], own.channels@[i], i as usize);
            &&& 0 <= k
            &&& k + block.len() <= m.channel_blocks(own, n).len()
            &&& forall|t: int|
                0 <= t < block.len() ==> m.channel_blocks(own, n)[k + t] == #[trigger] block[t]
        }),
    decreases n,
{
    let before = m.channel_blocks(own, (n - 1) as nat);
    let block = channel_block(m.channels@[i], own.channels@[i], i as usize);
    if i == n - 1 {
        before.len() as int
    } else {
        let k = lemma_channel_block(m, own, (n - 1) as nat, i);
        assert forall|t: int| 0 <= t < block.len() implies m.channel_blocks(own, n)[k + t]
            == #[trigger] block[t] by {
            assert(before[k + t] == block[t]);
        }
        k
    }
}

} // verus!
