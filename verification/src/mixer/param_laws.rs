//! Which parameters a mixer declares: one for each thing that can be set.

use vstd::prelude::*;

use crate::mixer::nesting::Name;
use crate::mixer::params;
use crate::mixer::params::{
    ChannelParam, EffectParams, GroupParam, OwnParam, Owner, ParamSource, ParamView,
};
use crate::mixer::text;
use crate::mixer::types::{ChannelGroup, ChannelKeys, InputSelect, Mixer};

verus! {

/// How many of the parameters set that.
pub open spec fn setting_count(ps: Seq<ParamView>, source: ParamSource) -> nat
    decreases ps.len(),
{
    if ps.len() == 0 {
        0
    } else {
        setting_count(ps.drop_last(), source) + (if ps.last().source == source {
            1nat
        } else {
            0
        })
    }
}

/// What a channel's setting is called in its parameter's id, and in its name.
pub open spec fn setting_words(setting: ChannelParam) -> (Name, Name) {
    match setting {
        ChannelParam::Opacity => ("opacity"@, " Opacity"@),
        ChannelParam::Blend => ("blend"@, " Blend"@),
        ChannelParam::InputSelect => ("input_select"@, " Input"@),
        ChannelParam::KeyMode => ("key_mode"@, " Key"@),
        ChannelParam::KeyR => ("key_r"@, " Key R"@),
        ChannelParam::KeyG => ("key_g"@, " Key G"@),
        ChannelParam::KeyB => ("key_b"@, " Key B"@),
        ChannelParam::KeyThreshold => ("key_threshold"@, " Key Threshold"@),
        ChannelParam::KeySmoothness => ("key_smoothness"@, " Key Smoothness"@),
        ChannelParam::LumaInvert => ("key_luma_invert"@, " Luma Invert"@),
    }
}

/// What an effect's own parameters are prefixed with: the names of all that it sits in.
pub open spec fn owner_prefix<E, M>(m: Mixer<E, M>, owner: Owner) -> Name {
    match owner {
        Owner::Channel { channel } => "ch_"@ + m.channels@[channel as int].uuid@ + "_"@,
        Owner::ChannelSlot { channel, slot } => "ch_"@ + m.channels@[channel as int].uuid@ + "_"@
            + "fx"@ + m.channels@[channel as int].chain@[slot as int].uuid@ + "_"@,
        Owner::GroupSlot { group, slot } => "grp_"@ + m.groups@[group as int].uuid@ + "_"@ + "fx"@
            + m.groups@[group as int].chain@[slot as int].uuid@ + "_"@,
        Owner::Transition => "transition_"@,
        Owner::MasterSlot { slot } => "master_"@ + "fx"@ + m.master@[slot as int].uuid@ + "_"@,
    }
}

/// What an effect declares for itself; nothing where there is no effect.
pub open spec fn owner_list<E, M>(m: Mixer<E, M>, own: EffectParams, owner: Owner) -> Seq<
    OwnParam,
> {
    match owner {
        Owner::Channel { channel } => if channel < m.channels@.len() {
            own.channels@[channel as int].effect@
        } else {
            Seq::empty()
        },
        Owner::ChannelSlot { channel, slot } => if channel < m.channels@.len() && slot
            < m.channels@[channel as int].chain@.len() {
            own.channels@[channel as int].chain@[slot as int]@
        } else {
            Seq::empty()
        },
        Owner::GroupSlot { group, slot } => if group < m.groups@.len() && slot
            < m.groups@[group as int].chain@.len() {
            own.groups@[group as int]@[slot as int]@
        } else {
            Seq::empty()
        },
        Owner::Transition => if m.transition is Some {
            own.transition@
        } else {
            Seq::empty()
        },
        Owner::MasterSlot { slot } => if slot < m.master@.len() {
            own.master@[slot as int]@
        } else {
            Seq::empty()
        },
    }
}

/// Whether there is such a thing to set.
pub open spec fn can_set<E, M>(m: Mixer<E, M>, own: EffectParams, source: ParamSource) -> bool {
    match source {
        ParamSource::Crossfader => true,
        ParamSource::Channel { channel, .. } => channel < m.channels@.len(),
        ParamSource::Group { group, .. } => group < m.groups@.len(),
        ParamSource::Own { owner, index } => index < owner_list(m, own, owner).len(),
    }
}

/// The underscores at the end of a name, if any, are what trimming takes away.
pub proof fn law_trimmed_name(s: Name)
    ensures
        params::trimmed(s).len() <= s.len(),
        params::trimmed(s) == s.take(params::trimmed(s).len() as int),
        params::trimmed(s).len() > 0 ==> params::trimmed(s).last() != '_',
        forall|i: int| params::trimmed(s).len() <= i < s.len() ==> #[trigger] s[i] == '_',
    decreases s.len(),
{
    if s.len() > 0 && s.last() == '_' {
        let rest = s.drop_last();
        law_trimmed_name(rest);
        let n = params::trimmed(s).len() as int;
        assert(rest.take(n) =~= s.take(n));
        assert forall|i: int| n <= i < s.len() implies #[trigger] s[i] == '_' by {
            if i < rest.len() {
                assert(rest[i] == '_');
            }
        }
    } else {
        assert(s.take(s.len() as int) =~= s);
    }
}

/// What the parameter that sets a thing is called and offers.
pub open spec fn is_declared<E, M>(m: Mixer<E, M>, own: EffectParams, p: ParamView) -> bool {
    match p.source {
        ParamSource::Crossfader => p.id == "crossfader"@ && p.name == "Crossfader"@ && p.choice
            is None,
        ParamSource::Channel { channel, setting } => {
            let c = m.channels@[channel as int];
            &&& p.id == "ch_"@ + c.uuid@ + "_"@ + setting_words(setting).0
            &&& p.name == c.name@ + setting_words(setting).1
            &&& match setting {
                ChannelParam::InputSelect => p.choice == Some(
                    match c.input_select {
                        InputSelect::Slot1 => 0usize,
                        InputSelect::Slot2 => 1,
                        InputSelect::Both => 2,
                    },
                ),
                ChannelParam::KeyMode => p.choice == Some(c.key_mode as usize),
                ChannelParam::LumaInvert => p.choice == Some(
                    if c.luma_invert {
                        1usize
                    } else {
                        0
                    },
                ),
                _ => p.choice is None,
            }
        },
        ParamSource::Group { group, group_setting } => {
            let g = m.groups@[group as int];
            &&& p.id == "grp_"@ + g.uuid@ + "_"@ + (match group_setting {
                GroupParam::Opacity => "opacity"@,
                GroupParam::Blend => "blend"@,
            })
            &&& p.name == g.name@ + (match group_setting {
                GroupParam::Opacity => " Opacity"@,
                GroupParam::Blend => " Blend"@,
            })
            &&& p.choice is None
        },
        ParamSource::Own { owner, index } => {
            let o = owner_list(m, own, owner)[index as int];
            let prefix = owner_prefix(m, owner);
            &&& p.id == prefix + o.id@
            &&& p.name == o.name@ + " ["@ + params::trimmed(prefix) + "]"@
            &&& p.choice is None
        },
    }
}

/// Whether each of the parameters is called as it should be.
spec fn all_declared<E, M>(m: Mixer<E, M>, own: EffectParams, ps: Seq<ParamView>) -> bool {
    forall|k: int| 0 <= k < ps.len() ==> is_declared(m, own, #[trigger] ps[k])
}

proof fn lemma_settings_joined(a: Seq<ParamView>, b: Seq<ParamView>, source: ParamSource)
    ensures
        setting_count(a + b, source) == setting_count(a, source) + setting_count(b, source),
    decreases b.len(),
{
    if b.len() == 0 {
        assert(a + b =~= a);
    } else {
        assert((a + b).drop_last() =~= a + b.drop_last());
        lemma_settings_joined(a, b.drop_last(), source);
    }
}

proof fn lemma_no_setting(ps: Seq<ParamView>, source: ParamSource)
    requires
        forall|k: int| 0 <= k < ps.len() ==> (#[trigger] ps[k]).source != source,
    ensures
        setting_count(ps, source) == 0,
    decreases ps.len(),
{
    if ps.len() > 0 {
        assert forall|k: int| 0 <= k < ps.len() - 1 implies (
        #[trigger] ps.drop_last()[k]).source != source by {
            assert(ps.drop_last()[k] == ps[k]);
        }
        lemma_no_setting(ps.drop_last(), source);
    }
}

proof fn lemma_one_setting(ps: Seq<ParamView>, source: ParamSource, k: int)
    requires
        0 <= k < ps.len(),
        ps[k].source == source,
        forall|j: int| 0 <= j < ps.len() && j != k ==> (#[trigger] ps[j]).source != source,
    ensures
        setting_count(ps, source) == 1,
    decreases ps.len(),
{
    let rest = ps.drop_last();
    assert forall|j: int| 0 <= j < rest.len() && j != k implies (#[trigger] rest[j]).source
        != source by {
        assert(rest[j] == ps[j]);
    }
    if k == ps.len() - 1 {
        lemma_no_setting(rest, source);
    } else {
        lemma_one_setting(rest, source, k);
        assert(ps[ps.len() - 1].source != source);
    }
}

proof fn lemma_declared_joined<E, M>(
    m: Mixer<E, M>,
    own: EffectParams,
    a: Seq<ParamView>,
    b: Seq<ParamView>,
)
    requires
        all_declared(m, own, a),
        all_declared(m, own, b),
    ensures
        all_declared(m, own, a + b),
{
    assert forall|k: int| 0 <= k < (a + b).len() implies is_declared(
        m,
        own,
        #[trigger] (a + b)[k],
    ) by {
        if k < a.len() {
            assert((a + b)[k] == a[k]);
        } else {
            assert((a + b)[k] == b[k - a.len()]);
        }
    }
}

/// An effect declares each of its own parameters once.
proof fn lemma_own<E, M>(
    m: Mixer<E, M>,
    own: EffectParams,
    owner: Owner,
    source: ParamSource,
)
    requires
        owner_list(m, own, owner).len() <= usize::MAX,
    ensures
        ({
            let ps = params::own_params(owner_prefix(m, owner), owner_list(m, own, owner), owner);
            &&& all_declared(m, own, ps)
            &&& setting_count(ps, source) == (match source {
                ParamSource::Own { owner: o, index } => if o == owner && index < owner_list(
                    m,
                    own,
                    owner,
                ).len() {
                    1nat
                } else {
                    0
                },
                _ => 0,
            })
        }),
{
    let list = owner_list(m, own, owner);
    let ps = params::own_params(owner_prefix(m, owner), list, owner);
    assert forall|k: int| 0 <= k < ps.len() implies (#[trigger] ps[k]).source == (
    ParamSource::Own { owner, index: k as usize }) && is_declared(m, own, ps[k]) by {}
    match source {
        ParamSource::Own { owner: o, index } if o == owner && index < list.len() => {
            assert(ps[index as int].source == source);
            lemma_one_setting(ps, source, index as int);
        },
        _ => {
            lemma_no_setting(ps, source);
        },
    }
}

/// The slots of a channel declare what their effects do.
proof fn lemma_channel_slots<E, M>(
    m: Mixer<E, M>,
    own: EffectParams,
    i: usize,
    n: nat,
    source: ParamSource,
)
    requires
        m.lists_fit(own),
        i < m.channels@.len(),
        n <= m.channels@[i as int].chain@.len(),
    ensures
        ({
            let ps = params::channel_slots(
                m.channels@[i as int],
                own.channels@[i as int].chain@,
                i,
                n,
            );
            &&& all_declared(m, own, ps)
            &&& setting_count(ps, source) == (if source matches ParamSource::Own {
                owner: Owner::ChannelSlot { channel, slot },
                index,
            } && channel == i && slot < n && can_set(m, own, source) {
                1nat
            } else {
                0
            })
        }),
    decreases n,
{
    let c = m.channels@[i as int];
    let lists = own.channels@[i as int].chain@;
    if n > 0 {
        let k = (n - 1) as nat;
        let before = params::channel_slots(c, lists, i, k);
        lemma_channel_slots(m, own, i, k, source);
        assert(c.chain.len() == c.chain@.len());
        let owner = Owner::ChannelSlot { channel: i, slot: (n - 1) as usize };
        assert(lists[n - 1].len() == lists[n - 1]@.len());
        let add = params::own_params(owner_prefix(m, owner), lists[n - 1]@, owner);
        assert(owner_list(m, own, owner) == lists[n - 1]@);
        lemma_own(m, own, owner, source);
        lemma_settings_joined(before, add, source);
        lemma_declared_joined(m, own, before, add);
        assert(params::channel_slots(c, lists, i, n) =~= before + add);
    }
}

/// The slots of a group declare what their effects do.
proof fn lemma_group_slots<E, M>(
    m: Mixer<E, M>,
    own: EffectParams,
    g: usize,
    n: nat,
    source: ParamSource,
)
    requires
        m.lists_fit(own),
        g < m.groups@.len(),
        n <= m.groups@[g as int].chain@.len(),
    ensures
        ({
            let ps = params::group_slots(m.groups@[g as int], own.groups@[g as int]@, g, n);
            &&& all_declared(m, own, ps)
            &&& setting_count(ps, source) == (if source matches ParamSource::Own {
                owner: Owner::GroupSlot { group, slot },
                index,
            } && group == g && slot < n && can_set(m, own, source) {
                1nat
            } else {
                0
            })
        }),
    decreases n,
{
    let c = m.groups@[g as int];
    let lists = own.groups@[g as int]@;
    if n > 0 {
        let k = (n - 1) as nat;
        let before = params::group_slots(c, lists, g, k);
        lemma_group_slots(m, own, g, k, source);
        assert(c.chain.len() == c.chain@.len());
        let owner = Owner::GroupSlot { group: g, slot: (n - 1) as usize };
        assert(lists[n - 1].len() == lists[n - 1]@.len());
        let add = params::own_params(owner_prefix(m, owner), lists[n - 1]@, owner);
        assert(owner_list(m, own, owner) == lists[n - 1]@);
        lemma_own(m, own, owner, source);
        lemma_settings_joined(before, add, source);
        lemma_declared_joined(m, own, before, add);
        assert(params::group_slots(c, lists, g, n) =~= before + add);
    }
}

/// The slots of the master declare what their effects do.
proof fn lemma_master_slots<E, M>(
    m: Mixer<E, M>,
    own: EffectParams,
    n: nat,
    source: ParamSource,
)
    requires
        m.lists_fit(own),
        n <= m.master@.len(),
    ensures
        ({
            let ps = params::master_slots(m.master@, own.master@, n);
            &&& all_declared(m, own, ps)
            &&& setting_count(ps, source) == (if source matches ParamSource::Own {
                owner: Owner::MasterSlot { slot },
                index,
            } && slot < n && can_set(m, own, source) {
                1nat
            } else {
                0
            })
        }),
    decreases n,
{
    let lists = own.master@;
    if n > 0 {
        let k = (n - 1) as nat;
        let before = params::master_slots(m.master@, lists, k);
        lemma_master_slots(m, own, k, source);
        assert(m.master.len() == m.master@.len());
        let owner = Owner::MasterSlot { slot: (n - 1) as usize };
        assert(lists[n - 1].len() == lists[n - 1]@.len());
        let add = params::own_params(owner_prefix(m, owner), lists[n - 1]@, owner);
        assert(owner_list(m, own, owner) == lists[n - 1]@);
        lemma_own(m, own, owner, source);
        lemma_settings_joined(before, add, source);
        lemma_declared_joined(m, own, before, add);
        assert(params::master_slots(m.master@, lists, n) =~= before + add);
    }
}

/// Where a channel's setting stands among its settings.
spec fn setting_place(setting: ChannelParam) -> int {
    match setting {
        ChannelParam::Opacity => 0,
        ChannelParam::Blend => 1,
        ChannelParam::InputSelect => 2,
        ChannelParam::KeyMode => 3,
        ChannelParam::KeyR => 4,
        ChannelParam::KeyG => 5,
        ChannelParam::KeyB => 6,
        ChannelParam::KeyThreshold => 7,
        ChannelParam::KeySmoothness => 8,
        ChannelParam::LumaInvert => 9,
    }
}

/// A channel declares each of its settings once.
proof fn lemma_channel_settings<E, M>(
    m: Mixer<E, M>,
    own: EffectParams,
    i: usize,
    source: ParamSource,
)
    requires
        i < m.channels@.len(),
    ensures
        ({
            let ps = params::channel_settings(m.channels@[i as int], i);
            &&& all_declared(m, own, ps)
            &&& setting_count(ps, source) == (if source matches ParamSource::Channel {
                channel,
                ..
            } && channel == i {
                1nat
            } else {
                0
            })
        }),
{
    let ps = params::channel_settings(m.channels@[i as int], i);
    assert forall|k: int| 0 <= k < ps.len() implies is_declared(m, own, #[trigger] ps[k]) by {}
    match source {
        ParamSource::Channel { channel, setting } if channel == i => {
            let at = setting_place(setting);
            assert(ps[at].source == source);
            lemma_one_setting(ps, source, at);
        },
        _ => {
            lemma_no_setting(ps, source);
        },
    }
}

/// The first `n` channels declare their settings and what their effects do.
proof fn lemma_channel_blocks<E, M>(
    m: Mixer<E, M>,
    own: EffectParams,
    n: nat,
    source: ParamSource,
)
    requires
        m.lists_fit(own),
        n <= m.channels@.len(),
    ensures
        all_declared(m, own, m.channel_blocks(own, n)),
        setting_count(m.channel_blocks(own, n), source) == (if can_set(m, own, source) && (
        match source {
            ParamSource::Channel { channel, .. } => channel < n,
            ParamSource::Own { owner: Owner::Channel { channel }, .. } => channel < n,
            ParamSource::Own { owner: Owner::ChannelSlot { channel, .. }, .. } => channel < n,
            _ => false,
        }) {
            1nat
        } else {
            0
        }),
    decreases n,
{
    if n > 0 {
        let k = (n - 1) as nat;
        lemma_channel_blocks(m, own, k, source);
        assert(m.channels.len() == m.channels@.len());
        let i = (n - 1) as usize;
        let c = m.channels@[n - 1];
        let o = own.channels@[n - 1];
        let before = m.channel_blocks(own, k);
        let settings = params::channel_settings(c, i);
        let owner = Owner::Channel { channel: i };
        let effect = params::own_params(owner_prefix(m, owner), o.effect@, owner);
        let slots = params::channel_slots(c, o.chain@, i, c.chain@.len());
        assert(o.effect.len() == o.effect@.len());
        assert(owner_list(m, own, owner) == o.effect@);
        lemma_channel_settings(m, own, i, source);
        lemma_own(m, own, owner, source);
        lemma_channel_slots(m, own, i, c.chain@.len(), source);
        let block = params::channel_block(c, o, i);
        assert(block =~= settings + effect + slots);
        lemma_settings_joined(settings, effect, source);
        lemma_settings_joined(settings + effect, slots, source);
        lemma_settings_joined(before, block, source);
        lemma_declared_joined(m, own, settings, effect);
        lemma_declared_joined(m, own, settings + effect, slots);
        lemma_declared_joined(m, own, before, block);
        assert(m.channel_blocks(own, n) =~= before + block);
    }
}

/// The first `n` groups declare their settings and what their effects do.
proof fn lemma_group_blocks<E, M>(
    m: Mixer<E, M>,
    own: EffectParams,
    n: nat,
    source: ParamSource,
)
    requires
        m.lists_fit(own),
        n <= m.groups@.len(),
    ensures
        all_declared(m, own, m.group_blocks(own, n)),
        setting_count(m.group_blocks(own, n), source) == (if can_set(m, own, source) && (
        match source {
            ParamSource::Group { group, .. } => group < n,
            ParamSource::Own { owner: Owner::GroupSlot { group, .. }, .. } => group < n,
            _ => false,
        }) {
            1nat
        } else {
            0
        }),
    decreases n,
{
    if n > 0 {
        let k = (n - 1) as nat;
        lemma_group_blocks(m, own, k, source);
        assert(m.groups.len() == m.groups@.len());
        let i = (n - 1) as usize;
        let g = m.groups@[n - 1];
        let o = own.groups@[n - 1]@;
        let before = m.group_blocks(own, k);
        let settings = params::group_settings(g, i);
        let slots = params::group_slots(g, o, i, g.chain@.len());
        match source {
            ParamSource::Group { group, group_setting } if group == i => {
                let at: int = if group_setting == GroupParam::Opacity {
                    0
                } else {
                    1
                };
                assert(settings[at].source == source);
                lemma_one_setting(settings, source, at);
            },
            _ => {
                lemma_no_setting(settings, source);
            },
        }
        assert(all_declared(m, own, settings));
        lemma_group_slots(m, own, i, g.chain@.len(), source);
        let block = params::group_block(g, o, i);
        assert(block =~= settings + slots);
        lemma_settings_joined(settings, slots, source);
        lemma_settings_joined(before, block, source);
        lemma_declared_joined(m, own, settings, slots);
        lemma_declared_joined(m, own, before, block);
        assert(m.group_blocks(own, n) =~= before + block);
    }
}

/// Each thing that can be set has exactly one parameter, nothing else has any, and each
/// parameter goes by the id and the name of what it sets: the crossfader; every setting of
/// every channel and group; every parameter that the effect of a channel, of a slot, of
/// the master or of the transition declares, if there is such an effect.
pub proof fn law_each_setting_has_one_parameter<E, M>(
    m: Mixer<E, M>,
    own: EffectParams,
    source: ParamSource,
)
    requires
        m.lists_fit(own),
    ensures
        setting_count(m.all_params(own), source) == (if can_set(m, own, source) {
            1nat
        } else {
            0
        }),
        forall|k: int|
            0 <= k < m.all_params(own).len() ==> is_declared(m, own, #[trigger] m.all_params(own)[k]),
{
    let first = seq![params::crossfader_param()];
    let channels = m.channel_blocks(own, m.channels@.len());
    let groups = m.group_blocks(own, m.groups@.len());
    let transition = m.transition_block(own);
    let master = params::master_slots(m.master@, own.master@, m.master@.len());
    if source == ParamSource::Crossfader {
        lemma_one_setting(first, source, 0);
    } else {
        lemma_no_setting(first, source);
    }
    lemma_channel_blocks(m, own, m.channels@.len(), source);
    lemma_group_blocks(m, own, m.groups@.len(), source);
    assert(own.transition.len() == own.transition@.len());
    lemma_own(m, own, Owner::Transition, source);
    if m.transition is None {
        lemma_no_setting(transition, source);
    }
    lemma_master_slots(m, own, m.master@.len(), source);
    lemma_settings_joined(first, channels, source);
    lemma_settings_joined(first + channels, groups, source);
    lemma_settings_joined(first + channels + groups, transition, source);
    lemma_settings_joined(first + channels + groups + transition, master, source);
    lemma_declared_joined(m, own, first, channels);
    lemma_declared_joined(m, own, first + channels, groups);
    lemma_declared_joined(m, own, first + channels + groups, transition);
    lemma_declared_joined(m, own, first + channels + groups + transition, master);
}

/// The keys under which a channel's settings are looked up are the ids of the parameters
/// that set them.
pub proof fn law_channel_keys_are_ids(keys: ChannelKeys, uuid: Name)
    requires
        keys.under(text::channel_prefix(uuid)),
    ensures
        ({
            let prefix = "ch_"@ + uuid + "_"@;
            &&& keys.opacity@ == prefix + setting_words(ChannelParam::Opacity).0
            &&& keys.blend@ == prefix + setting_words(ChannelParam::Blend).0
            &&& keys.input_select@ == prefix + setting_words(ChannelParam::InputSelect).0
            &&& keys.key_mode@ == prefix + setting_words(ChannelParam::KeyMode).0
            &&& keys.key_r@ == prefix + setting_words(ChannelParam::KeyR).0
            &&& keys.key_g@ == prefix + setting_words(ChannelParam::KeyG).0
            &&& keys.key_b@ == prefix + setting_words(ChannelParam::KeyB).0
            &&& keys.key_threshold@ == prefix + setting_words(ChannelParam::KeyThreshold).0
            &&& keys.key_smoothness@ == prefix + setting_words(ChannelParam::KeySmoothness).0
            &&& keys.key_luma_invert@ == prefix + setting_words(ChannelParam::LumaInvert).0
        }),
{
}

/// A new group goes by its name, holds nothing and is switched on, and its keys are the
/// ids of the parameters that set its level and its blend mode.
pub proof fn law_new_group<E, M>(g: ChannelGroup<E, M>, uuid: Name, name: Name, mix: M)
    requires
        g.fresh(uuid, name, mix),
    ensures
        g.uuid@ == uuid && g.name@ == name && g.mix == mix,
        g.parent is None && g.chain@.len() == 0,
        !g.solo && !g.mute && !g.collapsed && !g.rendered && !g.allocated,
        g.opacity_key@ == "grp_"@ + uuid + "_"@ + "opacity"@,
        g.blend_key@ == "grp_"@ + uuid + "_"@ + "blend"@,
{
}

} // verus!
