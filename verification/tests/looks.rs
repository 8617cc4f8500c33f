//! Looks of fixtures, in DMX bytes.

use rustjay::look::{render_look, ChannelRole, FixtureLook, FixtureProfile, LookLevels};

/// A fixture at rest: dark, with pan and tilt centred.
fn rest() -> FixtureLook<f32> {
    FixtureLook {
        dimmer: 0.0,
        color: [0.0; 3],
        white: 0.0,
        pan: 0.5,
        tilt: 0.5,
        zoom: 0.0,
        strobe: 0.0,
        gobo: 0,
    }
}

/// A look in DMX resolution.
fn levels(look: &FixtureLook<f32>) -> LookLevels {
    let to_byte = |v: f32| (v * 255.0).clamp(0.0, 255.0) as u8;
    let to_u16 = |v: f32| (v * 65535.0).clamp(0.0, 65535.0) as u16;
    let [r, g, b] = look.color;
    LookLevels {
        dimmer: to_byte(look.dimmer),
        red: to_byte(r),
        green: to_byte(g),
        blue: to_byte(b),
        white: to_byte(look.white),
        amber: to_byte((r + g) * 0.5),
        uv: to_byte(b * 0.8),
        pan: to_u16(look.pan),
        tilt: to_u16(look.tilt),
        zoom: to_byte(look.zoom),
        strobe: to_byte(look.strobe),
        gobo: look.gobo,
    }
}

fn rendered(profile: &FixtureProfile, look: &FixtureLook<f32>) -> Vec<u8> {
    render_look(profile, &levels(look))
}

/// A look part of the way from one to another.
fn lerp(from: &FixtureLook<f32>, to: &FixtureLook<f32>, t: f32) -> FixtureLook<f32> {
    let t = t.clamp(0.0, 1.0);
    let l = |a: f32, b: f32| a + (b - a) * t;
    let mixed = FixtureLook {
        dimmer: l(from.dimmer, to.dimmer),
        color: [
            l(from.color[0], to.color[0]),
            l(from.color[1], to.color[1]),
            l(from.color[2], to.color[2]),
        ],
        white: l(from.white, to.white),
        pan: l(from.pan, to.pan),
        tilt: l(from.tilt, to.tilt),
        zoom: l(from.zoom, to.zoom),
        strobe: l(from.strobe, to.strobe),
        gobo: 255,
    };
    from.lerp(to, &mixed, t >= 1.0)
}

fn mh() -> FixtureProfile {
    FixtureProfile {
        id: "moving_head_16bit".to_string(),
        name: "Moving head".to_string(),
        channels: vec![
            ChannelRole::Pan,
            ChannelRole::PanFine,
            ChannelRole::Tilt,
            ChannelRole::TiltFine,
            ChannelRole::Dimmer,
            ChannelRole::Red,
            ChannelRole::Green,
            ChannelRole::Blue,
            ChannelRole::Strobe,
        ],
    }
}

#[test]
fn render_moving_head_golden_vector() {
    // Pan 0.5 is 32767: coarse 127, fine 255. Tilt 0.25 is 16383: 63/255.
    let look = FixtureLook {
        dimmer: 1.0,
        color: [1.0, 0.5, 0.0],
        pan: 0.5,
        tilt: 0.25,
        strobe: 0.0,
        ..rest()
    };
    let bytes = rendered(&mh(), &look);
    // [Pan, PanFine, Tilt, TiltFine, Dimmer, R, G, B, Strobe]
    assert_eq!(bytes, vec![127, 255, 63, 255, 255, 255, 127, 0, 0]);
}

#[test]
fn pan_16bit_roundtrips_endpoints() {
    let p = mh();
    let low = rendered(&p, &FixtureLook { pan: 0.0, ..rest() });
    let high = rendered(&p, &FixtureLook { pan: 1.0, ..rest() });
    assert_eq!((low[0], low[1]), (0, 0));
    assert_eq!((high[0], high[1]), (255, 255));
}

#[test]
fn coarse_only_profile_is_8bit() {
    let p = FixtureProfile {
        id: "mh8".into(),
        name: "8-bit head".into(),
        channels: vec![ChannelRole::Pan, ChannelRole::Tilt, ChannelRole::Dimmer],
    };
    let bytes = rendered(&p, &FixtureLook { pan: 0.5, tilt: 1.0, dimmer: 0.5, ..rest() });
    assert_eq!(bytes, vec![127, 255, 127]);
}

#[test]
fn lerp_snaps_strobe_and_gobo_at_end() {
    let a = FixtureLook { strobe: 0.0, gobo: 10, dimmer: 0.0, ..rest() };
    let b = FixtureLook { strobe: 1.0, gobo: 20, dimmer: 1.0, ..rest() };
    let mid = lerp(&a, &b, 0.5);
    assert_eq!(mid.strobe, 0.0, "strobe holds until fade completes");
    assert_eq!(mid.gobo, 10, "gobo holds until fade completes");
    assert!((mid.dimmer - 0.5).abs() < 1e-6, "dimmer lerps");
    let end = lerp(&a, &b, 1.0);
    assert_eq!(end.strobe, 1.0);
    assert_eq!(end.gobo, 20);
}

#[test]
fn static_and_white_pass_through() {
    let p = FixtureProfile {
        id: "x".into(),
        name: "x".into(),
        channels: vec![ChannelRole::Static(42), ChannelRole::White],
    };
    let bytes = rendered(&p, &FixtureLook { white: 1.0, ..rest() });
    assert_eq!(bytes, vec![42, 255]);
}

#[test]
fn every_role_has_its_level() {
    let p = FixtureProfile {
        id: "all".into(),
        name: "All roles".into(),
        channels: vec![
            ChannelRole::Amber,
            ChannelRole::Uv,
            ChannelRole::Zoom,
            ChannelRole::Gobo,
            ChannelRole::Strobe,
        ],
    };
    let look = FixtureLook {
        color: [1.0, 0.0, 1.0],
        zoom: 2.0,
        strobe: -1.0,
        gobo: 13,
        ..rest()
    };
    assert_eq!(rendered(&p, &look), vec![127, 204, 255, 13, 0]);
}

#[test]
fn coarse_and_fine_make_the_whole_position() {
    let p = FixtureProfile {
        id: "fine".into(),
        name: "Fine".into(),
        channels: vec![
            ChannelRole::Tilt,
            ChannelRole::TiltFine,
            ChannelRole::Pan,
            ChannelRole::PanFine,
        ],
    };
    let mut l = levels(&rest());
    l.pan = 0x1234;
    l.tilt = 0xabcd;
    assert_eq!(render_look(&p, &l), vec![0xab, 0xcd, 0x12, 0x34]);
}
