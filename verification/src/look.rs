//! Fixture looks: normalised target state for cue-based control, rendered to channel
//! bytes. Values are sent as set: no gamma, no white extraction.

use vstd::prelude::*;

verus! {

/// What a channel of a fixture does.
#[derive(Debug, Clone, Copy, PartialEq, Eq, Structural)]
pub enum ChannelRole {
    Red,
    Green,
    Blue,
    White,
    Amber,
    Uv,
    Dimmer,
    Pan,
    PanFine,
    Tilt,
    TiltFine,
    Zoom,
    Strobe,
    Gobo,
    Static(u8),
}

/// A kind of fixture: what each of its channels does.
#[derive(Debug)]
pub struct FixtureProfile {
    pub id: String,
    pub name: String,
    pub channels: Vec<ChannelRole>,
}

/// Normalised target state for one fixture in a lighting cue. Levels are the host's, from
/// none to full; pan and tilt are fractions of the fixture's full travel.
#[derive(Debug, Clone, Copy)]
pub struct FixtureLook<F> {
    pub dimmer: F,
    /// Red, green and blue.
    pub color: [F; 3],
    /// Explicit white channel (not derived from the colour).
    pub white: F,
    pub pan: F,
    pub tilt: F,
    pub zoom: F,
    /// Strobe rate; none is open on most fixtures.
    pub strobe: F,
    /// Raw gobo byte: slot ranges are fixture-specific.
    pub gobo: u8,
}

impl<F: Copy> FixtureLook<F> {
    /// A look on the way from this one to another, given the mix of their continuous
    /// levels. Discrete and rate parameters (strobe, gobo) do not mix: they snap when the
    /// fade is finished, as a strobe rate or gobo byte in between is visual garbage.
    pub fn lerp(&self, other: &FixtureLook<F>, mixed: &FixtureLook<F>, finished: bool) -> (look:
        FixtureLook<F>)
        ensures
            look == faded(*self, *other, *mixed, finished),
    {
        FixtureLook {
            dimmer: mixed.dimmer,
            color: mixed.color,
            white: mixed.white,
            pan: mixed.pan,
            tilt: mixed.tilt,
            zoom: mixed.zoom,
            strobe: if finished {
                other.strobe
            } else {
                self.strobe
            },
            gobo: if finished {
                other.gobo
            } else {
                self.gobo
            },
        }
    }
}

/// A look on the way from one to another, given the mix of their continuous levels and
/// whether the fade is finished.
pub open spec fn faded<F>(
    from: FixtureLook<F>,
    to: FixtureLook<F>,
    mixed: FixtureLook<F>,
    finished: bool,
) -> FixtureLook<F> {
    FixtureLook {
        strobe: if finished {
            to.strobe
        } else {
            from.strobe
        },
        gobo: if finished {
            to.gobo
        } else {
            from.gobo
        },
        ..mixed
    }
}

/// A fade whose mix is still the first look is that look, and a finished one whose mix is
/// the second is that one. In between, strobe and gobo are the first look's, and nothing
/// but those two departs from the mix.
pub proof fn law_fade_ends_in_the_looks<F>(
    from: FixtureLook<F>,
    to: FixtureLook<F>,
    mixed: FixtureLook<F>,
)
    ensures
        faded(from, to, from, false) == from,
        faded(from, to, to, true) == to,
        faded(from, to, mixed, false).strobe == from.strobe,
        faded(from, to, mixed, false).gobo == from.gobo,
        faded(from, to, mixed, true).strobe == to.strobe,
        faded(from, to, mixed, true).gobo == to.gobo,
        forall|finished: bool| #[trigger]
            faded(from, to, mixed, finished) == (FixtureLook {
                strobe: faded(from, to, mixed, finished).strobe,
                gobo: faded(from, to, mixed, finished).gobo,
                ..mixed
            }),
        forall|finished: bool|
            #![trigger faded(from, to, mixed, finished)]
            faded(from, to, mixed, finished).dimmer == mixed.dimmer && faded(
                from,
                to,
                mixed,
                finished,
            ).color == mixed.color && faded(from, to, mixed, finished).white == mixed.white
                && faded(from, to, mixed, finished).pan == mixed.pan && faded(
                from,
                to,
                mixed,
                finished,
            ).tilt == mixed.tilt && faded(from, to, mixed, finished).zoom == mixed.zoom,
{
}

/// A look in DMX resolution: bytes, and 16 bits for pan and tilt.
#[derive(Debug, Clone, Copy, PartialEq, Eq, Structural)]
pub struct LookLevels {
    pub dimmer: u8,
    pub red: u8,
    pub green: u8,
    pub blue: u8,
    pub white: u8,
    /// The warm-white approximation of amber.
    pub amber: u8,
    /// The blue approximation of ultraviolet.
    pub uv: u8,
    pub pan: u16,
    pub tilt: u16,
    pub zoom: u8,
    pub strobe: u8,
    /// Raw gobo byte.
    pub gobo: u8,
}

/// The byte of a role: a coarse role gives the high byte of pan or tilt and a fine role
/// the low one.
pub open spec fn role_byte(role: ChannelRole, look: LookLevels) -> u8 {
    match role {
        ChannelRole::Red => look.red,
        ChannelRole::Green => look.green,
        ChannelRole::Blue => look.blue,
        ChannelRole::White => look.white,
        ChannelRole::Amber => look.amber,
        ChannelRole::Uv => look.uv,
        ChannelRole::Dimmer => look.dimmer,
        ChannelRole::Pan => (look.pan / 256) as u8,
        ChannelRole::PanFine => (look.pan % 256) as u8,
        ChannelRole::Tilt => (look.tilt / 256) as u8,
        ChannelRole::TiltFine => (look.tilt % 256) as u8,
        ChannelRole::Zoom => look.zoom,
        ChannelRole::Strobe => look.strobe,
        ChannelRole::Gobo => look.gobo,
        ChannelRole::Static(v) => v,
    }
}

/// Coarse and fine byte together are the whole 16-bit position.
pub proof fn law_coarse_and_fine(look: LookLevels)
    ensures
        role_byte(ChannelRole::Pan, look) * 256 + role_byte(ChannelRole::PanFine, look)
            == look.pan,
        role_byte(ChannelRole::Tilt, look) * 256 + role_byte(ChannelRole::TiltFine, look)
            == look.tilt,
{
}

/// What a fixture of those channels is sent for a look.
pub open spec fn rendered(channels: Seq<ChannelRole>, look: LookLevels) -> Seq<u8> {
    channels.map_values(|role: ChannelRole| role_byte(role, look))
}

/// Each channel of a fixture carries the level that its role is named after, whatever the
/// other channels are. Pan and tilt go out as the high byte of their position, and the fine
/// channels carry what that leaves.
pub proof fn law_each_role_carries_its_level(
    channels: Seq<ChannelRole>,
    look: LookLevels,
    i: int,
)
    requires
        0 <= i < channels.len(),
    ensures
        rendered(channels, look).len() == channels.len(),
        channels[i] == ChannelRole::Red ==> rendered(channels, look)[i] == look.red,
        channels[i] == ChannelRole::Green ==> rendered(channels, look)[i] == look.green,
        channels[i] == ChannelRole::Blue ==> rendered(channels, look)[i] == look.blue,
        channels[i] == ChannelRole::White ==> rendered(channels, look)[i] == look.white,
        channels[i] == ChannelRole::Amber ==> rendered(channels, look)[i] == look.amber,
        channels[i] == ChannelRole::Uv ==> rendered(channels, look)[i] == look.uv,
        channels[i] == ChannelRole::Dimmer ==> rendered(channels, look)[i] == look.dimmer,
        channels[i] == ChannelRole::Zoom ==> rendered(channels, look)[i] == look.zoom,
        channels[i] == ChannelRole::Strobe ==> rendered(channels, look)[i] == look.strobe,
        channels[i] == ChannelRole::Gobo ==> rendered(channels, look)[i] == look.gobo,
        channels[i] matches ChannelRole::Static(v) ==> rendered(channels, look)[i] == v,
        channels[i] == ChannelRole::Pan ==> 0 <= look.pan - 256 * rendered(channels, look)[i]
            < 256,
        channels[i] == ChannelRole::Tilt ==> 0 <= look.tilt - 256 * rendered(channels, look)[i]
            < 256,
        channels[i] == ChannelRole::PanFine ==> (look.pan - rendered(channels, look)[i]) % 256
            == 0,
        channels[i] == ChannelRole::TiltFine ==> (look.tilt - rendered(channels, look)[i]) % 256
            == 0,
{
}

/// Two looks that agree in the level of a channel's role give that channel the same byte,
/// however much they differ elsewhere.
pub proof fn law_other_levels_do_not_reach_a_channel(
    channels: Seq<ChannelRole>,
    a: LookLevels,
    b: LookLevels,
    i: int,
)
    requires
        0 <= i < channels.len(),
        channels[i] == ChannelRole::Red ==> a.red == b.red,
        channels[i] == ChannelRole::Green ==> a.green == b.green,
        channels[i] == ChannelRole::Blue ==> a.blue == b.blue,
        channels[i] == ChannelRole::White ==> a.white == b.white,
        channels[i] == ChannelRole::Amber ==> a.amber == b.amber,
        channels[i] == ChannelRole::Uv ==> a.uv == b.uv,
        channels[i] == ChannelRole::Dimmer ==> a.dimmer == b.dimmer,
        channels[i] == ChannelRole::Zoom ==> a.zoom == b.zoom,
        channels[i] == ChannelRole::Strobe ==> a.strobe == b.strobe,
        channels[i] == ChannelRole::Gobo ==> a.gobo == b.gobo,
        channels[i] == ChannelRole::Pan || channels[i] == ChannelRole::PanFine ==> a.pan == b.pan,
        channels[i] == ChannelRole::Tilt || channels[i] == ChannelRole::TiltFine ==> a.tilt
            == b.tilt,
    ensures
        rendered(channels, a)[i] == rendered(channels, b)[i],
{
}

fn byte_of(role: ChannelRole, look: &LookLevels) -> (b: u8)
    ensures
        b == role_byte(role, *look),
{
    match role {
        ChannelRole::Red => look.red,
        ChannelRole::Green => look.green,
        ChannelRole::Blue => look.blue,
        ChannelRole::White => look.white,
        ChannelRole::Amber => look.amber,
        ChannelRole::Uv => look.uv,
        ChannelRole::Dimmer => look.dimmer,
        ChannelRole::Pan => (look.pan / 256) as u8,
        ChannelRole::PanFine => (look.pan % 256) as u8,
        ChannelRole::Tilt => (look.tilt / 256) as u8,
        ChannelRole::TiltFine => (look.tilt % 256) as u8,
        ChannelRole::Zoom => look.zoom,
        ChannelRole::Strobe => look.strobe,
        ChannelRole::Gobo => look.gobo,
        ChannelRole::Static(v) => v,
    }
}

/// Renders a look to channel bytes in the profile's order. A profile with only coarse
/// pan and tilt degrades to 8 bits naturally.
pub fn render_look(profile: &FixtureProfile, look: &LookLevels) -> (bytes: Vec<u8>)
    ensures
        bytes@ == rendered(profile.channels@, *look),
        bytes@.len() == profile.channels@.len(),
        forall|i: int|
            0 <= i < bytes@.len() ==> match #[trigger] profile.channels@[i] {
                ChannelRole::Red => bytes@[i] == look.red,
                ChannelRole::Green => bytes@[i] == look.green,
                ChannelRole::Blue => bytes@[i] == look.blue,
                ChannelRole::White => bytes@[i] == look.white,
                ChannelRole::Amber => bytes@[i] == look.amber,
                ChannelRole::Uv => bytes@[i] == look.uv,
                ChannelRole::Dimmer => bytes@[i] == look.dimmer,
                ChannelRole::Pan => bytes@[i] == look.pan / 256,
                ChannelRole::PanFine => bytes@[i] == look.pan % 256,
                ChannelRole::Tilt => bytes@[i] == look.tilt / 256,
                ChannelRole::TiltFine => bytes@[i] == look.tilt % 256,
                ChannelRole::Zoom => bytes@[i] == look.zoom,
                ChannelRole::Strobe => bytes@[i] == look.strobe,
                ChannelRole::Gobo => bytes@[i] == look.gobo,
                ChannelRole::Static(v) => bytes@[i] == v,
            },
{
    let mut bytes: Vec<u8> = Vec::new();
    let mut i: usize = 0;
    let ghost all = rendered(profile.channels@, *look);
    while i < profile.channels.len()
        invariant
            i <= profile.channels.len(),
            all == rendered(profile.channels@, *look),
            bytes@ == all.take(i as int),
        decreases profile.channels.len() - i,
    {
        bytes.push(byte_of(profile.channels[i], look));
        i = i + 1;
        assert(bytes@ =~= all.take(i as int));
    }
    assert(bytes@ =~= all);
    bytes
}

} // verus!
