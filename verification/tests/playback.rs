//! Playback of recorded shows, and the merge of layers into one frame.

use rustjay::dmx::{DmxFrame, DMX_UNIVERSE_SIZE};
use rustjay::merge::{composite, Fade, FadeTable};
use rustjay::order::order_by_key;
use rustjay::play::{MaskedFrame, ShowPlayer};
use rustjay::rec::RecEvent;

fn ev(t_ms: u32, universe: u16, channel: u16, value: u8) -> RecEvent {
    RecEvent { t_ms, universe, channel, value }
}

/// The fade of a layer's weight.
fn fade(weight: f32) -> Fade {
    let w = weight.clamp(0.0, 1.0);
    if w <= 0.0 {
        return Fade::Hidden;
    }
    let mut mixed = Vec::with_capacity(65536);
    for under in 0u32..256 {
        for value in 0u32..256 {
            let under = under as f32;
            mixed.push((under + (value as f32 - under) * w).round() as u8);
        }
    }
    Fade::Mix(FadeTable::new(mixed).unwrap())
}

/// A channel is owned exactly when an earlier call wrote it.
#[test]
fn what_was_written_is_owned() {
    let mut f = MaskedFrame::default();
    f.set(1, 7, 0);
    f.write_span(1, 10, &[1, 2]);
    f.write_span(1, 512, &[3, 4]);
    f.pack_fixtures(3, &[5, 6, 7, 8], 1, 509);
    let owned = |u: u16| -> Vec<usize> {
        (0..DMX_UNIVERSE_SIZE).filter(|c| f.get(u).is_some_and(|m| m.owned(*c))).collect()
    };
    assert_eq!(owned(1), [7, 9, 10, 508, 509, 510, 511]);
    assert_eq!(owned(2), [0]);
    assert_eq!(f.get(1).unwrap().values()[511], 3);
    assert_eq!(f.get(1).unwrap().values()[8], 0);
    assert_eq!(f.get(2).unwrap().values()[..2], [8, 0]);
}

#[test]
fn player_advances_and_wraps() {
    let mut p = ShowPlayer::new(vec![
        ev(0, 1, 0, 100),
        ev(1000, 1, 0, 200),
        ev(2000, 1, 1, 50),
    ]);
    assert_eq!(p.duration_ms(), 2000);

    p.seek(0);
    assert_eq!(p.frame().get(1).unwrap().values()[0], 100);
    // Channel 1 is owned before its first event, at value 0.
    assert!(p.frame().get(1).unwrap().owned(1));
    assert_eq!(p.frame().get(1).unwrap().values()[1], 0);

    p.seek(1500);
    assert_eq!(p.frame().get(1).unwrap().values()[0], 200);

    p.seek(2000);
    assert_eq!(p.frame().get(1).unwrap().values()[1], 50);

    // Loop wrap: back to t=100 replays from zero state.
    p.seek(100);
    let u = p.frame().get(1).unwrap();
    assert_eq!(u.values()[0], 100);
    assert_eq!(u.values()[1], 0);
    assert!(u.owned(1), "ownership survives the wrap");
}

#[test]
fn a_seek_reaches_the_same_frame_from_anywhere() {
    let take = vec![ev(0, 1, 0, 9), ev(10, 1, 0, 8), ev(20, 2, 5, 7), ev(30, 1, 0, 0)];
    let mut direct = ShowPlayer::new(take.clone());
    direct.seek(25);
    let mut wandering = ShowPlayer::new(take);
    for t in [5, 30, 12, 25] {
        wandering.seek(t);
    }
    for universe in [1, 2] {
        let a = direct.frame().get(universe).unwrap();
        let b = wandering.frame().get(universe).unwrap();
        assert_eq!(a.values(), b.values());
        for ch in 0..DMX_UNIVERSE_SIZE {
            assert_eq!(a.owned(ch), b.owned(ch));
        }
    }
}

#[test]
fn an_empty_take_plays_nothing() {
    let mut p = ShowPlayer::new(Vec::new());
    assert_eq!(p.duration_ms(), 0);
    p.seek(1000);
    assert!(p.frame().is_empty());
}

#[test]
fn events_past_the_universe_claim_nothing() {
    let mut p = ShowPlayer::new(vec![ev(0, 1, 512, 9)]);
    p.seek(0);
    assert!(p.frame().get(1).is_none());
}

#[test]
fn composite_priority_and_mask() {
    // Low layer owns ch0+ch1; high layer owns ch1 only.
    let mut low = MaskedFrame::default();
    low.set(1, 0, 10);
    low.set(1, 1, 20);
    let mut high = MaskedFrame::default();
    high.set(1, 1, 200);

    let out = composite(&[(100, fade(1.0), &low), (150, fade(1.0), &high)]);
    let u = out.get(1).unwrap();
    assert_eq!(u[0], 10, "unontested channel from low layer");
    assert_eq!(u[1], 200, "high priority wins where it has data");
    assert_eq!(u[2], 0, "unowned channel stays 0");

    // Order in the slice must not matter for different priorities.
    let out2 = composite(&[(150, fade(1.0), &high), (100, fade(1.0), &low)]);
    assert_eq!(out2.get(1).unwrap()[1], 200);
}

#[test]
fn composite_equal_priority_later_wins() {
    let mut a = MaskedFrame::default();
    a.set(1, 0, 10);
    let mut b = MaskedFrame::default();
    b.set(1, 0, 90);
    let out = composite(&[(100, fade(1.0), &a), (100, fade(1.0), &b)]);
    assert_eq!(out.get(1).unwrap()[0], 90, "caller order breaks ties");
}

#[test]
fn composite_weight_lerps_against_underlayer() {
    let mut under = MaskedFrame::default();
    under.set(1, 0, 100);
    let mut over = MaskedFrame::default();
    over.set(1, 0, 200);

    let half = composite(&[(100, fade(1.0), &under), (150, fade(0.5), &over)]);
    assert_eq!(half.get(1).unwrap()[0], 150, "50% fade = midpoint");

    let zero = composite(&[(100, fade(1.0), &under), (150, fade(0.0), &over)]);
    assert_eq!(zero.get(1).unwrap()[0], 100, "weight 0 releases to under-layer");

    // No under-layer: fade rises from 0.
    let solo = composite(&[(150, fade(0.5), &over)]);
    assert_eq!(solo.get(1).unwrap()[0], 100);
}

#[test]
fn a_full_layer_covers_as_a_weight_of_one_does() {
    let mut under = MaskedFrame::default();
    under.set(1, 0, 100);
    let mut over = MaskedFrame::default();
    over.set(1, 0, 200);
    over.set(3, 511, 1);
    let out = composite(&[(2, Fade::Full, &over), (1, Fade::Full, &under)]);
    assert_eq!(out.get(1).unwrap()[0], 200);
    assert_eq!(out.get(3).unwrap()[511], 1);
    assert!(out.get(2).is_none());
}

#[test]
fn a_hidden_layer_adds_no_universe() {
    let mut over = MaskedFrame::default();
    over.set(4, 0, 200);
    assert!(composite(&[(1, Fade::Hidden, &over)]).get(4).is_none());
}

#[test]
fn a_fade_table_covers_every_pair_of_levels() {
    assert!(FadeTable::new(vec![0; 65535]).is_none());
    assert!(FadeTable::new(vec![0; 65537]).is_none());
    let mut mixed = vec![0; 65536];
    mixed[3 * 256 + 7] = 99;
    let table = FadeTable::new(mixed).unwrap();
    assert_eq!(table.mix(3, 7), 99);
    assert_eq!(table.mix(7, 3), 0);
}

#[test]
fn masked_pack_fixtures_wraps_universes() {
    let mut f = MaskedFrame::default();
    // 171 RGB fixtures from universe 1 ch 1: #171 must land in universe 2.
    let mut data = Vec::new();
    for i in 0u16..171 {
        let v = (i % 256) as u8;
        data.extend_from_slice(&[v, v, v]);
    }
    f.pack_fixtures(3, &data, 1, 1);
    let u1 = f.get(1).unwrap();
    assert_eq!(u1.values()[507..510], [169, 169, 169]);
    assert!(!u1.owned(510), "unwritten tail channels stay unowned");
    assert_eq!(f.get(2).unwrap().values()[0..3], [170, 170, 170]);
}

#[test]
fn a_fixture_wider_than_a_universe_is_not_packed() {
    let mut f = MaskedFrame::default();
    f.pack_fixtures(0, &[1, 2], 1, 1);
    f.pack_fixtures(513, &[1, 2], 1, 1);
    assert!(f.is_empty());
    // A short last fixture is packed as far as it goes.
    f.pack_fixtures(4, &[1, 2, 3, 4, 5], 65535, 509);
    assert_eq!(f.get(65535).unwrap().values()[508..512], [1, 2, 3, 4]);
    assert_eq!(f.get(0).unwrap().values()[0], 5);
    assert!(!f.get(0).unwrap().owned(1));
}

#[test]
fn a_span_is_cut_at_the_end_of_the_universe() {
    let mut f = MaskedFrame::default();
    f.write_span(7, 511, &[1, 2, 3]);
    let u = f.get(7).unwrap();
    assert_eq!(u.values()[510..512], [1, 2]);
    assert!(!u.owned(0));
    // Address 0 means the first channel, too.
    f.write_span(8, 0, &[5]);
    assert_eq!(f.get(8).unwrap().values()[0], 5);
}

#[test]
fn a_frame_lists_its_universes_in_order() {
    let mut f = MaskedFrame::default();
    f.set(9, 0, 1);
    f.set(2, 0, 2);
    f.set(2, 512, 3);
    let universes: Vec<u16> = f.iter().iter().map(|(u, _)| *u).collect();
    assert_eq!(universes, vec![2, 9]);
    let copy = f.clone();
    assert_eq!(copy.get(9).unwrap().values()[0], 1);
}

#[test]
fn equal_keys_keep_their_order() {
    assert_eq!(order_by_key(&vec![3, 1, 3, 0, 1]), vec![3, 1, 4, 0, 2]);
    assert!(order_by_key(&Vec::new()).is_empty());
}

#[test]
fn a_new_frame_has_no_universe() {
    let mut frame = DmxFrame::new();
    assert!(frame.get(1).is_none());
    frame.put(1, [7; DMX_UNIVERSE_SIZE]);
    assert_eq!(frame.get(1).unwrap()[511], 7);
}
