//! Edits of the stack: adding, removing and restacking layers and effects, and what of the
//! layers is heard.

use vstd::prelude::*;

use crate::mixer::blocks;
use crate::mixer::blocks::move_item;
use crate::mixer::grouping;
use crate::mixer::nesting;
use crate::mixer::nesting::{ChannelInfo, GroupInfo, Name};
use crate::mixer::text;
use crate::mixer::text::{channel_prefix_of, slot_prefix_of};
use crate::mixer::types;
use crate::mixer::types::{Channel, EffectSlot, LastOutput, Mixer, MAX_CHANNELS};

verus! {

/// Why the stack was not changed.
#[derive(Debug, Clone, Copy, PartialEq, Eq, Structural)]
pub enum MixerError {
    /// The mixer holds [`MAX_CHANNELS`] channels.
    MaximumChannels,
    /// The mixer would be left without a channel.
    MinimumChannels,
    /// There is no channel at that index.
    IndexOutOfBounds,
}

/// What an error is called.
pub open spec fn error_text(e: MixerError) -> Name {
    match e {
        MixerError::MaximumChannels => "maximum channels (16)"@,
        MixerError::MinimumChannels => "minimum 1 channel"@,
        MixerError::IndexOutOfBounds => "channel index out of bounds"@,
    }
}

impl MixerError {
    /// What the error is called.
    pub fn message(&self) -> (s: &'static str)
        ensures
            s@ == error_text(*self),
    {
        match self {
            MixerError::MaximumChannels => "maximum channels (16)",
            MixerError::MinimumChannels => "minimum 1 channel",
            MixerError::IndexOutOfBounds => "channel index out of bounds",
        }
    }
}

/// Whether a slot is new: enabled, for that effect, with eight hexadecimal digits as its
/// identity.
pub open spec fn is_new_slot<E>(slot: EffectSlot<E>, effect: E) -> bool {
    &&& slot.effect == effect
    &&& slot.enabled
    &&& slot.source_path is None
    &&& slot.uuid@.len() == 8
    &&& forall|i: int| 0 <= i < 8 ==> types::is_hex(#[trigger] slot.uuid@[i])
}

impl<E, M> Channel<E, M> {
    /// Appends an effect to the channel's post-chain and returns the parameter prefix
    /// that it is reached under: `ch_<uuid>_fx<uuid>_`.
    pub fn add_effect(&mut self, effect: E) -> (prefix: String)
        ensures
            *final(self) == (Channel { chain: final(self).chain, ..*old(self) }),
            final(self).chain@.len() == old(self).chain@.len() + 1,
            final(self).chain@.drop_last() == old(self).chain@,
            is_new_slot(final(self).chain@.last(), effect),
            prefix@ == text::slot_prefix(
                text::channel_prefix(old(self).uuid@),
                final(self).chain@.last().uuid@,
            ),
    {
        let slot = EffectSlot::new(effect);
        let own = channel_prefix_of(self.uuid.as_str());
        let prefix = slot_prefix_of(own.as_str(), slot.uuid.as_str());
        self.chain.push(slot);
        assert(self.chain@.drop_last() =~= old(self).chain@);
        prefix
    }

    /// Switches an effect of the post-chain on or off; an index past its end does
    /// nothing.
    pub fn set_effect_enabled(&mut self, index: usize, enabled: bool)
        ensures
            *final(self) == (Channel { chain: final(self).chain, ..*old(self) }),
            final(self).chain@ == (if index < old(self).chain@.len() {
                old(self).chain@.update(
                    index as int,
                    (EffectSlot { enabled, ..old(self).chain@[index as int] }),
                )
            } else {
                old(self).chain@
            }),
    {
        if index < self.chain.len() {
            self.chain[index].enabled = enabled;
        }
    }

    /// Reorders the post-chain: moves the effect at `from` to `to`. Prefixes keyed by
    /// uuid mean that existing parameter values stay wired.
    pub fn reorder_effect(&mut self, from: usize, to: usize)
        ensures
            *final(self) == (Channel { chain: final(self).chain, ..*old(self) }),
            final(self).chain@ == blocks::moved(old(self).chain@, from as int, to as int),
    {
        move_item(&mut self.chain, from, to);
    }

    /// Which texture holds the channel's output; `None` before there are any.
    pub fn output_texture(&self) -> (r: Option<LastOutput>)
        ensures
            r == (if self.size@ == seq![0u32, 0u32] {
                None
            } else {
                Some(self.last_output)
            }),
    {
        proof {
            if self.size@[0] == 0 && self.size@[1] == 0 {
                assert(self.size@ =~= seq![0u32, 0u32]);
            }
        }
        if self.size[0] == 0 && self.size[1] == 0 {
            None
        } else {
            Some(self.last_output)
        }
    }
}

/// How the crossfader scales a channel.
#[derive(Debug, Clone, Copy, PartialEq, Eq, Structural)]
pub enum Side {
    /// Not at all.
    Whole,
    /// By how far it is from the right end.
    Left,
    /// By how far it is from the left end.
    Right,
}

/// What a channel's effective opacity is made of: 0 unless it is live, else its own
/// opacity scaled as its side says.
#[derive(Debug, Clone, Copy, PartialEq, Eq, Structural)]
pub struct Opacity {
    pub live: bool,
    pub side: Side,
}

/// The side of channel `i`: with exactly two channels the crossfader scales both.
pub open spec fn side_of(use_crossfader: bool, channels: nat, i: int) -> Side {
    if use_crossfader && channels == 2 {
        if i == 0 {
            Side::Left
        } else {
            Side::Right
        }
    } else {
        Side::Whole
    }
}

/// Whether something inside a group lies at a place from `lo` on and before `hi`.
pub open spec fn reaches(
    cs: Seq<ChannelInfo>,
    gs: Seq<GroupInfo>,
    name: Name,
    lo: int,
    hi: int,
) -> bool {
    exists|j: int| 0 <= j < cs.len() && lo <= j < hi && #[trigger] nesting::inside(gs, cs[j], name)
}

/// Whether moving the channel at `from` to place `p` takes it out of its group's span: there
/// is something else inside the group, and the new place lies below all that is inside it,
/// the channel itself counted, or above all of it.
pub open spec fn off_span(cs: Seq<ChannelInfo>, gs: Seq<GroupInfo>, from: int, p: int) -> bool {
    match cs[from].group {
        Some(g) => {
            &&& reaches(cs, gs, g, 0, from) || reaches(cs, gs, g, from + 1, cs.len() as int)
            &&& !reaches(cs, gs, g, 0, p + 1) || !reaches(cs, gs, g, p, cs.len() as int)
        },
        None => false,
    }
}

/// A stack after the channel at `from` was moved to `to`. A member that was moved out of
/// its group's span has left the group.
pub open spec fn restacked<E, M>(
    channels: Seq<Channel<E, M>>,
    gs: Seq<GroupInfo>,
    from: int,
    to: int,
) -> Seq<Channel<E, M>> {
    let after = blocks::moved(channels, from, to);
    let p = blocks::last_or(to, channels.len());
    if from < channels.len() && from != to && off_span(grouping::infos(channels), gs, from, p) {
        after.update(p, (Channel { group: None, ..after[p] }))
    } else {
        after
    }
}

impl<E, M> Mixer<E, M> {
    /// The place of the first channel of that name.
    pub(crate) fn find_channel(&self, name: &String) -> (r: Option<usize>)
        ensures
            match (r, nesting::channel_at(self.channel_infos(), name@)) {
                (Some(i), Some(p)) => i == p && i < self.channels@.len(),
                (None, None) => true,
                _ => false,
            },
    {
        let ghost cs = self.channel_infos();
        let mut i: usize = 0;
        while i < self.channels.len()
            invariant
                i <= self.channels.len(),
                cs == self.channel_infos(),
                forall|j: int| 0 <= j < i ==> (#[trigger] cs[j]).uuid != name@,
            decreases self.channels.len() - i,
        {
            assert(cs[i as int].uuid == self.channels@[i as int].uuid@);
            if self.channels[i].uuid == *name {
                proof {
                    nesting::lemma_channel_at(cs, name@);
                }
                return Some(i);
            }
            i = i + 1;
        }
        proof {
            nesting::lemma_channel_at(cs, name@);
        }
        None
    }

    /// Which texture holds the output of the channel of that name, and which channel that
    /// is. Only valid after the mixer has rendered for the current frame.
    pub fn channel_texture(&self, uuid: &str) -> (r: Option<(usize, LastOutput)>)
        ensures
            match nesting::channel_at(self.channel_infos(), uuid@) {
                Some(i) => if self.channels@[i].size@ == seq![0u32, 0u32] {
                    r is None
                } else {
                    r == Some((i as usize, self.channels@[i].last_output))
                },
                None => r is None,
            },
    {
        let name = uuid.to_owned();
        match self.find_channel(&name) {
            Some(i) => match self.channels[i].output_texture() {
                Some(output) => Some((i, output)),
                None => None,
            },
            None => None,
        }
    }

    /// Adds a channel on top, returning its index. Fails if the mixer already has
    /// [`MAX_CHANNELS`] channels.
    pub fn add_channel(&mut self, channel: Channel<E, M>) -> (r: Result<usize, MixerError>)
        ensures
            if old(self).channels@.len() >= MAX_CHANNELS {
                r == Err::<usize, MixerError>(MixerError::MaximumChannels) && *final(self) == *old(
                    self,
                )
            } else {
                &&& r == Ok::<usize, MixerError>(old(self).channels@.len() as usize)
                &&& *final(self) == (Mixer {
                    channels: final(self).channels,
                    generation: types::next_generation(old(self).generation),
                    ..*old(self)
                })
                &&& final(self).channels@ == old(self).channels@.push(channel)
            },
    {
        if self.channels.len() >= MAX_CHANNELS {
            return Err(MixerError::MaximumChannels);
        }
        self.channels.push(channel);
        self.invalidate_composite_cache();
        Ok(self.channels.len() - 1)
    }

    /// Removes a channel by index, returning it. Fails if the mixer would be left
    /// without a channel.
    pub fn remove_channel(&mut self, index: usize) -> (r: Result<Channel<E, M>, MixerError>)
        ensures
            match r {
                Ok(ch) => {
                    &&& old(self).channels@.len() > 1 && index < old(self).channels@.len()
                    &&& ch == old(self).channels@[index as int]
                    &&& *final(self) == (Mixer {
                        channels: final(self).channels,
                        generation: types::next_generation(old(self).generation),
                        ..*old(self)
                    })
                    &&& final(self).channels@ == old(self).channels@.remove(index as int)
                },
                Err(e) => {
                    &&& *final(self) == *old(self)
                    &&& if old(self).channels@.len() <= 1 {
                        e == MixerError::MinimumChannels
                    } else {
                        index >= old(self).channels@.len() && e == MixerError::IndexOutOfBounds
                    }
                },
            },
    {
        if self.channels.len() <= 1 {
            return Err(MixerError::MinimumChannels);
        }
        if index >= self.channels.len() {
            return Err(MixerError::IndexOutOfBounds);
        }
        self.invalidate_composite_cache();
        Ok(self.channels.remove(index))
    }

    /// Adds an effect to the master chain and returns the parameter prefix that it is
    /// reached under: `master_fx<uuid>_`.
    pub fn add_master_effect(&mut self, effect: E) -> (prefix: String)
        ensures
            *final(self) == (Mixer { master: final(self).master, ..*old(self) }),
            final(self).master@.len() == old(self).master@.len() + 1,
            final(self).master@.drop_last() == old(self).master@,
            is_new_slot(final(self).master@.last(), effect),
            prefix@ == text::slot_prefix("master_"@, final(self).master@.last().uuid@),
    {
        let slot = EffectSlot::new(effect);
        let prefix = slot_prefix_of("master_", slot.uuid.as_str());
        self.master.push(slot);
        assert(self.master@.drop_last() =~= old(self).master@);
        prefix
    }

    /// Reorders the master chain: moves the effect at `from` to `to`.
    pub fn reorder_master_effect(&mut self, from: usize, to: usize)
        ensures
            *final(self) == (Mixer { master: final(self).master, ..*old(self) }),
            final(self).master@ == blocks::moved(old(self).master@, from as int, to as int),
    {
        move_item(&mut self.master, from, to);
    }

    /// Whether moving the channel at `from` to place `p` takes it out of its group's span.
    fn strays(&self, from: usize, p: usize) -> (out: bool)
        requires
            from < self.channels@.len(),
            p < self.channels@.len(),
        ensures
            out == off_span(self.channel_infos(), self.group_infos(), from as int, p as int),
    {
        let ghost cs = self.channel_infos();
        let ghost gs = self.group_infos();
        assert(cs[from as int] == self.channels@[from as int].info());
        match &self.channels[from].group {
            None => false,
            Some(g) => {
                assert(cs[from as int].group == Some(g@));
                let len: usize = self.channels.len();
                let other = self.group_reaches(g, 0, from) || self.group_reaches(g, from + 1, len);
                let below = self.group_reaches(g, 0, p + 1);
                let above = self.group_reaches(g, p, len);
                other && !(below && above)
            },
        }
    }

    /// Whether something inside a group lies at a place from `lo` on and before `hi`.
    fn group_reaches(&self, group: &String, lo: usize, hi: usize) -> (yes: bool)
        requires
            hi <= self.channels@.len(),
        ensures
            yes == reaches(
                self.channel_infos(),
                self.group_infos(),
                group@,
                lo as int,
                hi as int,
            ),
    {
        let ghost cs = self.channel_infos();
        let ghost gs = self.group_infos();
        let mut i: usize = lo;
        while i < hi
            invariant
                lo <= i,
                hi <= self.channels@.len(),
                cs == self.channel_infos(),
                gs == self.group_infos(),
                forall|j: int| lo <= j < i && j < hi ==> !nesting::inside(gs, #[trigger] cs[j], group@),
            decreases hi - i,
        {
            assert(cs[i as int] == self.channels@[i as int].info());
            if self.channel_in_group(i, group) {
                return true;
            }
            i = i + 1;
        }
        false
    }

    /// Moves the channel at `from` to `to`, shifting the rest.
    ///
    /// Channels composite in order, so for a host that presents them as layers this is
    /// the restack operation. Out-of-range indices are ignored; uuids are untouched, so
    /// parameter prefixes and modulation survive the move. A group is a contiguous span of
    /// the stack: restacking a member out of the span takes it out of the group.
    pub fn reorder_channel(&mut self, from: usize, to: usize)
        ensures
            final(self).channels@ == restacked(
                old(self).channels@,
                old(self).group_infos(),
                from as int,
                to as int,
            ),
            *final(self) == (Mixer {
                channels: final(self).channels,
                generation: if from < old(self).channels@.len() && from != to {
                    types::next_generation(old(self).generation)
                } else {
                    old(self).generation
                },
                ..*old(self)
            }),
    {
        if from >= self.channels.len() || from == to {
            return;
        }
        let p: usize = if to < self.channels.len() {
            to
        } else {
            self.channels.len() - 1
        };
        assert(self.channel_infos() =~= grouping::infos(old(self).channels@));
        let leaves = self.strays(from, p);
        move_item(&mut self.channels, from, to);
        if leaves {
            self.channels[p].group = None;
        }
        self.invalidate_composite_cache();
    }

    /// Whether a channel contributes to the mix at all.
    ///
    /// Mute always silences a channel; solo silences everything that is not itself
    /// soloed. A channel that is both stays muted: the explicit switch wins over the
    /// implicit one.
    pub fn audible(ch: &Channel<E, M>, any_solo: bool) -> (r: bool)
        ensures
            r == (ch.active && !ch.mute && (!any_solo || ch.solo)),
    {
        ch.active && !ch.mute && (!any_solo || ch.solo)
    }

    /// What each channel's effective opacity is made of: the one place where mute,
    /// solo, groups and the crossfader are combined. With exactly two channels the
    /// crossfader scales the two; otherwise each channel's own opacity is used directly.
    pub fn effective_opacities(&self) -> (out: Vec<Opacity>)
        ensures
            out@.len() == self.channels@.len(),
            forall|i: int|
                0 <= i < out@.len() ==> (#[trigger] out@[i]).live == nesting::channel_heard(
                    self.channel_infos(),
                    self.group_infos(),
                    self.channels@[i].info(),
                ) && out@[i].side == side_of(self.use_crossfader, self.channels@.len(), i),
    {
        let mut out: Vec<Opacity> = Vec::new();
        let mut i: usize = 0;
        while i < self.channels.len()
            invariant
                i <= self.channels.len(),
                out@.len() == i,
                forall|j: int|
                    0 <= j < i ==> (#[trigger] out@[j]).live == nesting::channel_heard(
                        self.channel_infos(),
                        self.group_infos(),
                        self.channels@[j].info(),
                    ) && out@[j].side == side_of(self.use_crossfader, self.channels@.len(), j),
            decreases self.channels.len() - i,
        {
            let c = &self.channels[i];
            let scope_open = match &c.group {
                None => true,
                Some(g) => self.group_audible(g.as_str()),
            };
            let live = c.active && !c.mute && (!self.solo_active_in(&c.group) || c.solo)
                && scope_open;
            let side = if self.use_crossfader && self.channels.len() == 2 {
                if i == 0 {
                    Side::Left
                } else {
                    Side::Right
                }
            } else {
                Side::Whole
            };
            out.push(Opacity { live, side });
            i = i + 1;
        }
        out
    }
}

/// The crossfader scales the channels only where it is in use and there are exactly two:
/// the first is on the left, the second on the right.
pub proof fn law_crossfader_sides(use_crossfader: bool, channels: nat, i: int)
    ensures
        side_of(use_crossfader, channels, i) == Side::Whole <==> !use_crossfader || channels != 2,
        side_of(use_crossfader, channels, i) == Side::Left <==> use_crossfader && channels == 2
            && i == 0,
        side_of(use_crossfader, channels, i) == Side::Right <==> use_crossfader && channels == 2
            && i != 0,
{
}

/// A channel leaves its group when it is moved exactly where another one is inside the
/// group too and all that is inside it lies to one side of the new place.
pub proof fn law_stray_leaves_its_group(
    cs: Seq<ChannelInfo>,
    gs: Seq<GroupInfo>,
    from: int,
    p: int,
)
    requires
        0 <= from < cs.len(),
    ensures
        off_span(cs, gs, from, p) <==> (cs[from].group matches Some(g) && (exists|j: int|
            0 <= j < cs.len() && j != from && #[trigger] nesting::inside(gs, cs[j], g)) && ((
        forall|j: int|
            0 <= j < cs.len() && #[trigger] nesting::inside(gs, cs[j], g) ==> p < j) || (forall|
            j: int,
        |
            0 <= j < cs.len() && #[trigger] nesting::inside(gs, cs[j], g) ==> j < p))),
{
    if let Some(g) = cs[from].group {
        if exists|j: int| 0 <= j < cs.len() && j != from && #[trigger] nesting::inside(
            gs,
            cs[j],
            g,
        ) {
            let j = choose|j: int|
                0 <= j < cs.len() && j != from && #[trigger] nesting::inside(gs, cs[j], g);
            if j < from {
                assert(reaches(cs, gs, g, 0, from));
            } else {
                assert(reaches(cs, gs, g, from + 1, cs.len() as int));
            }
        }
    }
}

/// A channel that is moved and strays from its group is in none afterwards; in every other
/// case it keeps its group. It ends up at the place asked for, the top one at most.
pub proof fn law_moved_channel<E, M>(
    channels: Seq<Channel<E, M>>,
    gs: Seq<GroupInfo>,
    from: int,
    to: int,
    p: int,
)
    requires
        0 <= from < channels.len(),
        0 <= to,
        from != to,
        p == (if to < channels.len() {
            to
        } else {
            channels.len() - 1
        }),
    ensures
        restacked(channels, gs, from, to)[p] == (Channel {
            group: if off_span(grouping::infos(channels), gs, from, p) {
                None
            } else {
                channels[from].group
            },
            ..channels[from]
        }),
        forall|i: int|
            0 <= i < channels.len() && i != from ==> {
                let left: int = if i < from {
                    i
                } else {
                    i - 1
                };
                restacked(channels, gs, from, to)[(if left < p {
                    left
                } else {
                    left + 1
                })] == #[trigger] channels[i]
            },
        restacked(channels, gs, from, to).len() == channels.len(),
{
}

/// A slot that was just added is on, holds the effect it was given and goes by eight
/// hexadecimal digits.
pub proof fn law_new_slot_runs<E>(slot: EffectSlot<E>, effect: E)
    requires
        is_new_slot(slot, effect),
    ensures
        slot.enabled,
        slot.effect == effect,
        slot.source_path is None,
        slot.uuid@.len() == 8,
        forall|i: int|
            0 <= i < 8 ==> ('0' <= #[trigger] slot.uuid@[i] <= '9' || 'a' <= slot.uuid@[i] <= 'f'),
{
}

/// Moving a channel that is not there, or to where it is, changes nothing.
pub proof fn law_idle_move<E, M>(
    channels: Seq<Channel<E, M>>,
    gs: Seq<GroupInfo>,
    from: int,
    to: int,
)
    requires
        from >= channels.len() || from == to,
    ensures
        restacked(channels, gs, from, to) == channels,
{
}

} // verus!
