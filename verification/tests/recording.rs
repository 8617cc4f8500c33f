//! Recording: the log format, and punch-in passes over a take.

use std::io::Write;

use flate2::write::GzEncoder;
use rustjay::dmx::DMX_UNIVERSE_SIZE;
use rustjay::play::ShowPlayer;
use rustjay::punch::PunchRecorder;
use rustjay::rec::{parse_rec, read_rec, rec_duration_ms, RecError, RecEvent, RecWriter, StreamEnd};
use rustjay::rx::{
    multicast_addr, pad, parse_packet, DropCounter, Parsed, RxConfig, RxProtocol, ARTNET_PORT,
    SACN_PORT,
};

fn ev(t_ms: u32, universe: u16, channel: u16, value: u8) -> RecEvent {
    RecEvent { t_ms, universe, channel, value }
}

fn gzip(data: &[u8]) -> Vec<u8> {
    let mut enc = GzEncoder::new(Vec::new(), flate2::Compression::default());
    enc.write_all(data).unwrap();
    enc.finish().unwrap()
}

/// The take of a pass that is kept in memory only.
fn finished(r: PunchRecorder) -> Vec<RecEvent> {
    r.finish().unwrap().0
}

#[test]
fn roundtrip() {
    let events = vec![
        RecEvent { t_ms: 0, universe: 1, channel: 0, value: 255 },
        RecEvent { t_ms: 16, universe: 1, channel: 1, value: 128 },
        RecEvent { t_ms: 5000, universe: 400, channel: 511, value: 1 },
    ];

    let mut w = RecWriter::create().unwrap();
    for e in &events {
        w.write(*e).unwrap();
    }
    let file = w.finish().unwrap();

    let read = read_rec(&file).unwrap();
    assert_eq!(read, events);
    assert_eq!(rec_duration_ms(&read), 5000);
}

#[test]
fn empty_recording() {
    let file = RecWriter::create().unwrap().finish().unwrap();
    let read = read_rec(&file).unwrap();
    assert!(read.is_empty());
    assert_eq!(rec_duration_ms(&read), 0);
}

#[test]
fn rejects_garbage_and_wrong_version() {
    assert!(read_rec(b"not gzip at all").is_err());

    // Valid gzip, wrong magic.
    assert!(read_rec(&gzip(b"BOGUS\x00\x01\x00")).is_err());
}

#[test]
fn each_refusal_has_its_reason() {
    assert_eq!(read_rec(&gzip(b"BOGUS\x00\x01\x00")), Err(RecError::NotRec));
    assert_eq!(read_rec(&gzip(b"DMXREC\x02\x00")), Err(RecError::Version(2)));
    assert_eq!(read_rec(&gzip(b"DMXREC\x01\x01")), Err(RecError::Version(257)));
    assert_eq!(read_rec(&gzip(b"DMXREC")), Err(RecError::Truncated));
    assert_eq!(read_rec(b"not gzip at all"), Err(RecError::Corrupt));
    assert_eq!(read_rec(b""), Err(RecError::Truncated));
}

#[test]
fn a_damaged_body_is_refused_but_a_cut_one_is_not() {
    let header = b"DMXREC\x01\x00".to_vec();
    let body = b"\x01\x00\x00\x00\x02\x00\x03\x00\x04\xff\xff".to_vec();
    let whole = vec![ev(1, 2, 3, 4)];
    assert_eq!(parse_rec(&header, &body, StreamEnd::Complete), Ok(whole.clone()));
    assert_eq!(parse_rec(&header, &body, StreamEnd::Truncated), Ok(whole));
    assert_eq!(parse_rec(&header, &body, StreamEnd::Corrupt), Err(RecError::Corrupt));
    // The header is looked at before the damage behind it.
    let bogus = b"BOGUS\x00\x01\x00".to_vec();
    assert_eq!(parse_rec(&bogus, &body, StreamEnd::Corrupt), Err(RecError::NotRec));
    assert_eq!(parse_rec(&Vec::new(), &body, StreamEnd::Corrupt), Err(RecError::Corrupt));
    assert_eq!(parse_rec(&Vec::new(), &body, StreamEnd::Complete), Err(RecError::Truncated));
}

#[test]
fn damage_behind_a_foreign_header_is_not_reached() {
    let mut file = gzip(b"BOGUS\x00\x01\x00 and more");
    let last = file.len() - 1;
    file[last] ^= 1;
    assert_eq!(read_rec(&file), Err(RecError::NotRec));
    let mut w = RecWriter::create().unwrap();
    w.write(ev(1, 2, 3, 4)).unwrap();
    let mut file = w.finish().unwrap();
    let last = file.len() - 1;
    file[last] ^= 1;
    assert_eq!(read_rec(&file), Err(RecError::Corrupt));
}

#[test]
fn event_encoding_is_9_bytes_le() {
    let e = RecEvent { t_ms: 0x01020304, universe: 0x0506, channel: 0x0708, value: 0x09 };
    let b = e.to_bytes();
    assert_eq!(b, [0x04, 0x03, 0x02, 0x01, 0x06, 0x05, 0x08, 0x07, 0x09]);
    assert_eq!(RecEvent::from_bytes(&b), e);
}

#[test]
fn every_record_is_the_record_of_its_event() {
    for b in [[0u8; 9], [255; 9], [1, 2, 3, 4, 5, 6, 7, 8, 9]] {
        assert_eq!(RecEvent::from_bytes(&b).to_bytes(), b);
    }
}

/// A log that is cut behind a flush gives back all that was written before it.
#[test]
fn a_flushed_log_survives_without_its_trailer() {
    let mut w = RecWriter::create().unwrap();
    w.write(ev(1, 1, 0, 10)).unwrap();
    w.write(ev(2, 1, 1, 20)).unwrap();
    let mut file = w.sync().unwrap();
    assert_eq!(read_rec(&file).unwrap(), vec![ev(1, 1, 0, 10), ev(2, 1, 1, 20)]);

    // What follows the flush continues the same file.
    w.write(ev(3, 1, 0, 30)).unwrap();
    file.extend(w.finish().unwrap());
    assert_eq!(
        read_rec(&file).unwrap(),
        vec![ev(1, 1, 0, 10), ev(2, 1, 1, 20), ev(3, 1, 0, 30)]
    );
}

#[test]
fn drawn_bytes_are_drawn_once() {
    let mut w = RecWriter::create().unwrap();
    let mut file = w.draw();
    file.extend(w.draw());
    w.write(ev(9, 9, 9, 9)).unwrap();
    file.extend(w.draw());
    file.extend(w.finish().unwrap());
    assert_eq!(read_rec(&file).unwrap(), vec![ev(9, 9, 9, 9)]);
}

#[test]
fn fresh_recording_captures_changes_only() {
    let mut r = PunchRecorder::start(Vec::new(), None);
    // Keep-alive resends of the same universe must not duplicate events.
    let mut u = [0u8; DMX_UNIVERSE_SIZE];
    u[0] = 10;
    r.input_universe(0, 1, &u);
    r.input_universe(100, 1, &u); // identical resend
    u[0] = 20;
    u[5] = 7;
    r.input_universe(200, 1, &u);

    let take = finished(r);
    assert_eq!(
        take,
        vec![ev(0, 1, 0, 10), ev(200, 1, 0, 20), ev(200, 1, 5, 7)],
        "zeros never punch a fresh take; changes dedup"
    );
}

#[test]
fn matching_input_never_punches() {
    // Base: ch0 = 50 for the whole take.
    let base = vec![ev(0, 1, 0, 50), ev(5000, 1, 0, 50)];
    let mut r = PunchRecorder::start(base.clone(), None);
    let mut u = [0u8; DMX_UNIVERSE_SIZE];
    u[0] = 50; // console replays the take exactly
    r.input_universe(0, 1, &u);
    r.input_universe(1000, 1, &u);
    assert_eq!(r.punched_count(), 0);
    assert_eq!(finished(r), base, "take unchanged");
}

#[test]
fn deviation_punches_in_and_stays_live() {
    // Base: ch0 ramps 100 to 200 at t=1000, back to 0 at t=4000.
    let base = vec![ev(0, 1, 0, 100), ev(1000, 1, 0, 200), ev(4000, 1, 0, 0)];
    let mut r = PunchRecorder::start(base, None);

    let mut u = [0u8; DMX_UNIVERSE_SIZE];
    u[0] = 100;
    r.input_universe(0, 1, &u); // matches: no punch
    u[0] = 150;
    r.input_universe(500, 1, &u); // deviates: punch at 500
    r.input_universe(1500, 1, &u); // still 150 (held): stays live, no event
    u[0] = 160;
    r.input_universe(2000, 1, &u);

    assert_eq!(r.punched_count(), 1);
    let take = finished(r);
    // Base t=0 kept (before punch); base t=1000 dropped (inside pass);
    // base t=4000 kept (after pass end 2000): the old take resumes.
    assert_eq!(
        take,
        vec![ev(0, 1, 0, 100), ev(500, 1, 0, 150), ev(2000, 1, 0, 160), ev(4000, 1, 0, 0)]
    );
}

#[test]
fn untouched_channels_keep_base_events() {
    let base = vec![ev(0, 1, 0, 10), ev(0, 2, 3, 99), ev(3000, 2, 3, 55)];
    let mut r = PunchRecorder::start(base, None);
    // Only universe 1 receives input, and it deviates immediately.
    let mut u = [0u8; DMX_UNIVERSE_SIZE];
    u[0] = 20;
    r.input_universe(100, 1, &u);
    let take = finished(r);
    assert!(take.contains(&ev(0, 2, 3, 99)));
    assert!(take.contains(&ev(3000, 2, 3, 55)), "unpunched channel keeps its future");
    assert!(take.contains(&ev(100, 1, 0, 20)));
    assert!(take.contains(&ev(0, 1, 0, 10)), "pre-punch base events are kept");
}

#[test]
fn monitor_merges_base_playback_and_punches() {
    let base = vec![ev(0, 1, 0, 100), ev(1000, 1, 1, 60)];
    let mut r = PunchRecorder::start(base, None);
    let mut u = [0u8; DMX_UNIVERSE_SIZE];
    u[0] = 100;
    u[2] = 40; // ch2 not in base: punches
    r.input_universe(0, 1, &u);

    let m = r.monitor_frame(1500);
    let uni = m.get(1).unwrap();
    assert_eq!(uni.values()[0], 100, "base value (unpunched)");
    assert_eq!(uni.values()[1], 60, "base playback advances with the clock");
    assert_eq!(uni.values()[2], 40, "punched live value overrides");
}

#[test]
fn pass_file_streams_and_survives() {
    let mut r = PunchRecorder::start(Vec::new(), Some(RecWriter::create().unwrap()));
    let mut u = [0u8; DMX_UNIVERSE_SIZE];
    u[0] = 42;
    r.input_universe(10, 1, &u);
    let mut file = r.draw_stream();
    assert!(!file.is_empty(), "the stream has begun");
    assert!(r.draw_stream().is_empty(), "what was drawn is given once");
    let (take, rest) = r.finish().unwrap();
    file.extend(rest);
    let pass = read_rec(&file).unwrap();
    assert_eq!(pass, take, "fresh take == streamed pass file");
}

/// Events that compress badly.
fn noise(n: u32) -> Vec<RecEvent> {
    let mut x: u32 = 12345;
    let mut next = || {
        x = x.wrapping_mul(1664525).wrapping_add(1013904223);
        x >> 8
    };
    (0..n).map(|t| ev(t * 1000 + next() % 1000, next() as u16, next() as u16, next() as u8)).collect()
}

/// However much came since the last sync, all of it can be read back after one.
#[test]
fn a_sync_brings_out_a_long_log() {
    let events = noise(40000);
    for n in [1, 909, 910, 911, 1820, 7000, 12001, 40000] {
        let mut w = RecWriter::create().unwrap();
        for e in &events[..n] {
            w.write(*e).unwrap();
        }
        let mut file = w.sync().unwrap();
        assert_eq!(read_rec(&file).unwrap(), events[..n], "synced after {n}");
        file.extend(w.finish().unwrap());
        assert_eq!(read_rec(&file).unwrap(), events[..n], "finished after {n}");
    }
}

/// What was drawn off at any time, and what comes later, make up one file.
#[test]
fn a_log_is_drawn_off_piece_by_piece() {
    let events = noise(5000);
    let mut w = RecWriter::create().unwrap();
    let mut file = Vec::new();
    for (i, e) in events.iter().enumerate() {
        w.write(*e).unwrap();
        if i % 700 == 0 {
            file.extend(w.draw());
        }
        if i % 1100 == 0 {
            file.extend(w.sync().unwrap());
            assert_eq!(read_rec(&file).unwrap(), events[..i + 1]);
        }
    }
    file.extend(w.finish().unwrap());
    assert_eq!(read_rec(&file).unwrap(), events);
}

/// A crash loses the last few events: what was drawn off without a sync reads back as the
/// rest.
#[test]
fn a_crash_loses_little() {
    let events = noise(3000);
    let mut w = RecWriter::create().unwrap();
    let mut file = Vec::new();
    for (i, e) in events.iter().enumerate() {
        w.write(*e).unwrap();
        file.extend(w.draw());
        if i == 0 {
            assert_eq!(read_rec(&file), Err(RecError::Truncated), "nothing was flushed yet");
        }
        if i >= 910 && i % 77 == 0 {
            let read = read_rec(&file).unwrap();
            assert!(i + 1 - read.len() <= 911, "{} of {} events", read.len(), i + 1);
            assert_eq!(read, events[..read.len()]);
        }
    }
}

/// A long pass is in its stream whole.
#[test]
fn a_long_pass_streams_whole() {
    let mut r = PunchRecorder::start(Vec::new(), Some(RecWriter::create().unwrap()));
    let mut file = Vec::new();
    for t in 0..3000u32 {
        r.input(t, 1, (t % 500) as u16, (1 + t / 500) as u8);
        file.extend(r.draw_stream());
    }
    assert_eq!(r.event_count(), 3000);
    let (take, rest) = r.finish().unwrap();
    file.extend(rest);
    assert_eq!(read_rec(&file).unwrap(), take);
}

/// From its punch to the pass end a channel plays what was last fed to it; before the punch,
/// and on a channel that never punched in, the base plays.
#[test]
fn the_merged_take_plays_the_pass_over_the_base() {
    let base = vec![ev(0, 1, 0, 5), ev(0, 1, 1, 50), ev(10, 1, 0, 6), ev(25, 1, 1, 51), ev(30, 1, 0, 7)];
    let mut r = PunchRecorder::start(base, None);
    for (t, v) in [(5, 5), (12, 90), (18, 91), (18, 92), (24, 92), (40, 92)] {
        r.input(t, 1, 0, v);
    }
    let mut p = ShowPlayer::new(finished(r));
    for (t, a, b) in [
        (0, 5, 50),
        (10, 6, 50),
        (11, 6, 50),
        (12, 90, 50),
        (17, 90, 50),
        (18, 92, 50),
        (25, 92, 51),
        (30, 92, 51),
        (39, 92, 51),
    ] {
        p.seek(t);
        let values = p.frame().get(1).unwrap().values();
        assert_eq!((values[0], values[1]), (a, b), "at {t}");
    }
}

/// The pass replaces what lies from the punch up to its end; an event at the very end of
/// the pass is the old take's again.
#[test]
fn the_old_take_resumes_at_the_end_of_the_pass() {
    let base = vec![ev(0, 1, 0, 5), ev(10, 1, 0, 6), ev(20, 1, 0, 7)];
    let mut r = PunchRecorder::start(base, None);
    r.input(10, 1, 0, 99);
    r.input(20, 1, 0, 98);
    assert_eq!(r.event_count(), 2);
    assert_eq!(
        finished(r),
        vec![ev(0, 1, 0, 5), ev(10, 1, 0, 99), ev(20, 1, 0, 7), ev(20, 1, 0, 98)]
    );
}

#[test]
fn input_past_the_universe_is_ignored() {
    let mut r = PunchRecorder::start(vec![ev(5, 1, 0, 1)], None);
    r.input(100, 1, 512, 9);
    assert_eq!(r.punched_count(), 0);
    assert_eq!(r.event_count(), 0);
    assert_eq!(finished(r), vec![ev(5, 1, 0, 1)]);
}

#[test]
fn the_take_is_in_time_order() {
    let base = vec![ev(50, 2, 0, 1), ev(150, 2, 0, 2)];
    let mut r = PunchRecorder::start(base, None);
    r.input(100, 1, 0, 9);
    r.input(200, 1, 0, 8);
    let times: Vec<u32> = finished(r).iter().map(|e| e.t_ms).collect();
    assert_eq!(times, vec![50, 100, 150, 200]);
}

/// A fresh take is what was captured, and a pass without a punch leaves the take alone.
#[test]
fn takes_follow_from_their_passes() {
    let mut r = PunchRecorder::start(Vec::new(), Some(RecWriter::create().unwrap()));
    for (t, v) in [(0, 3), (5, 4), (5, 4), (9, 0)] {
        r.input(t, 2, 7, v);
    }
    let (take, file) = r.finish().unwrap();
    assert_eq!(take, vec![ev(0, 2, 7, 3), ev(5, 2, 7, 4), ev(9, 2, 7, 0)]);
    assert_eq!(read_rec(&file).unwrap(), take);
    assert_eq!(finished(PunchRecorder::start(take.clone(), None)), take);
}

#[test]
fn a_packet_keeps_its_protocol() {
    let slots = [1u8, 2, 3];
    let sacn = Parsed { universe: 7, extra: 120, slots: &slots };
    let p = parse_packet(Some(sacn), None).unwrap();
    assert_eq!(p.protocol, RxProtocol::Sacn);
    assert_eq!((p.universe, p.priority), (7, 120));
    assert_eq!(p.data[0..4], [1, 2, 3, 0]);

    let art = Parsed { universe: 3, extra: 9, slots: &slots };
    let p = parse_packet(None, Some(art)).unwrap();
    assert_eq!(p.protocol, RxProtocol::ArtNet);
    assert_eq!((p.universe, p.priority), (3, 100));

    assert!(parse_packet(None, None).is_none());
}

#[test]
fn the_first_protocol_that_parses_wins() {
    let a = [1u8];
    let b = [2u8];
    let p = parse_packet(
        Some(Parsed { universe: 1, extra: 5, slots: &a }),
        Some(Parsed { universe: 2, extra: 6, slots: &b }),
    )
    .unwrap();
    assert_eq!(p.protocol, RxProtocol::Sacn);
    assert_eq!(p.data[0], 1);
}

/// Change detection against implicit zeros, into a log and back.
#[test]
fn captured_packets_read_back() {
    let mut w = RecWriter::create().unwrap();
    let mut last = [0u8; DMX_UNIVERSE_SIZE];
    let mut t_ms = 0;
    for v in [10u8, 20] {
        let slots = [v, 7];
        let parsed = Parsed { universe: 1, extra: 100, slots: &slots };
        let pkt = parse_packet(Some(parsed), None).unwrap();
        for ch in 0..DMX_UNIVERSE_SIZE {
            if last[ch] != pkt.data[ch] {
                w.write(ev(t_ms, pkt.universe, ch as u16, pkt.data[ch])).unwrap();
            }
        }
        last = pkt.data;
        t_ms += 16;
    }
    let events = read_rec(&w.finish().unwrap()).unwrap();
    assert_eq!(events, vec![ev(0, 1, 0, 10), ev(0, 1, 1, 7), ev(16, 1, 0, 20)]);
}

#[test]
fn short_and_long_slot_lists_fill_a_universe() {
    assert_eq!(pad(&[]), [0; DMX_UNIVERSE_SIZE]);
    let long = vec![9u8; 600];
    assert_eq!(pad(&long), [9; DMX_UNIVERSE_SIZE]);
}

#[test]
fn a_multicast_group_holds_the_universe() {
    assert_eq!(multicast_addr(1), [239, 255, 0, 1]);
    assert_eq!(multicast_addr(0x1234), [239, 255, 0x12, 0x34]);
}

#[test]
fn drops_are_reported_at_powers_of_two() {
    let mut c = DropCounter { dropped: 0 };
    let warned: Vec<u64> = (1..=9).filter(|_| c.note()).collect();
    assert_eq!(warned, vec![1, 2, 4, 8]);
    assert_eq!(c.dropped, 9);
}

#[test]
fn both_protocols_are_listened_for_by_default() {
    let c = RxConfig::default();
    assert!(c.sacn && c.artnet);
    assert_eq!((c.sacn_port, c.artnet_port), (SACN_PORT, ARTNET_PORT));
    assert!(c.sacn_multicast.is_empty());
}
