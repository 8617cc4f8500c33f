//! Video inputs: Spout blocks and the ring of slots, hardware frames, bundled tools.

use rustjay::spout::{
    bridge_format, frame_bytes, read_sender_dimensions, read_sender_info, shared_texture_target,
    BridgeFormat, GpuBridge, GpuStep, ReceiveStep, SharedTextureInfo, SpoutDiscovery, SpoutError,
    SpoutInputReceiver, SPOUT_MAX_NAME_LEN, SPOUT_MAX_SENDERS, TEXTURE_INFO_LEN,
};
use rustjay::tools::{tool_beside, tool_file, ToolPlace};
use rustjay::video::{both_planes, is_hardware_frame, plane_format, PlaneFormat};

fn name_map(names: &[&[u8]]) -> Vec<u8> {
    let mut map = Vec::new();
    for name in names {
        let mut slot = name.to_vec();
        slot.resize(SPOUT_MAX_NAME_LEN, 0);
        map.extend(slot);
    }
    map
}

fn block(handle: u32, width: u32, height: u32) -> Vec<u8> {
    let mut b = Vec::new();
    for v in [handle, width, height, 87, 3] {
        b.extend(v.to_le_bytes());
    }
    b.resize(276, b'x');
    b.extend(9u32.to_le_bytes());
    b
}

#[test]
fn names_end_at_an_empty_slot() {
    let map = name_map(&[b"first", b"second", b"", b"third"]);
    assert_eq!(SpoutDiscovery::sender_names(&map), ["first", "second"]);
    assert!(SpoutDiscovery::sender_names(&[]).is_empty());
    // A slot that is cut short is not read.
    assert_eq!(SpoutDiscovery::sender_names(&map[..300]), ["first"]);
}

#[test]
fn a_name_may_fill_its_slot() {
    let long = [b'n'; SPOUT_MAX_NAME_LEN];
    let map = name_map(&[&long, b"next"]);
    let names = SpoutDiscovery::sender_names(&map);
    assert_eq!(names[0].len(), SPOUT_MAX_NAME_LEN);
    assert_eq!(names[1], "next");
}

#[test]
fn bad_bytes_in_a_name_are_replaced() {
    let map = name_map(&[b"a\xffb"]);
    assert_eq!(SpoutDiscovery::sender_names(&map), ["a\u{fffd}b"]);
}

#[test]
fn no_more_than_the_most_senders_are_listed() {
    let slots: Vec<&[u8]> = vec![b"s"; SPOUT_MAX_SENDERS + 3];
    let map = name_map(&slots);
    assert_eq!(SpoutDiscovery::sender_names(&map).len(), SPOUT_MAX_SENDERS);
}

#[test]
fn senders_are_listed_with_their_sizes() {
    let names = vec!["a".to_string(), "b".to_string(), "c".to_string()];
    let blocks = vec![Some(block(1, 640, 480)), None, Some(vec![0; TEXTURE_INFO_LEN - 1])];
    let senders = SpoutDiscovery::list_senders(names, &blocks);
    let sizes: Vec<(&str, u32, u32)> =
        senders.iter().map(|s| (s.name.as_str(), s.width, s.height)).collect();
    assert_eq!(sizes, [("a", 640, 480), ("b", 0, 0), ("c", 0, 0)]);
}

#[test]
fn a_block_is_read_field_by_field() {
    assert_eq!(
        SharedTextureInfo::read(&block(0x01020304, 1920, 1080)),
        Some(SharedTextureInfo {
            share_handle: 0x01020304,
            width: 1920,
            height: 1080,
            format: 87,
            usage: 3,
            partner_id: 9,
        })
    );
    assert_eq!(SharedTextureInfo::read(&[0; 279]), None);
    assert_eq!(read_sender_dimensions(&Some(block(1, 20000, 3))), (20000, 3));
}

#[test]
fn what_cannot_be_opened_says_why() {
    assert_eq!(shared_texture_target(&None), Err(SpoutError::NotInSharedMemory));
    assert_eq!(shared_texture_target(&Some(vec![0; 12])), Err(SpoutError::TooSmall(12)));
    assert_eq!(shared_texture_target(&Some(block(5, 0, 9))), Err(SpoutError::ZeroDimensions));
    assert_eq!(shared_texture_target(&Some(block(5, 9, 0))), Err(SpoutError::ZeroDimensions));
    assert_eq!(shared_texture_target(&Some(block(0, 9, 9))), Err(SpoutError::NullHandle));
    assert_eq!(shared_texture_target(&Some(block(5, 9, 8))), Ok((5, 9, 8)));
    // Sizes are clamped before they are looked at.
    assert_eq!(read_sender_info(&Some(block(5, 99999, 8))), Ok((5, 16384, 8)));
}

#[test]
fn only_known_formats_are_imported() {
    assert_eq!(bridge_format(87), Some(BridgeFormat::Bgra8Unorm));
    assert_eq!(bridge_format(28), Some(BridgeFormat::Rgba8Unorm));
    assert_eq!(bridge_format(10), Some(BridgeFormat::Rgba16Float));
    assert_eq!(bridge_format(24), Some(BridgeFormat::Rgb10a2Unorm));
    assert_eq!(bridge_format(88), None);
    assert!(GpuBridge::new(4, 4, 24).is_some());
    assert!(GpuBridge::new(4, 4, 88).is_none());
}

#[test]
fn a_slot_is_rewritten_three_copies_after_it_was_shown() {
    let mut b = GpuBridge::new(64, 64, 87).unwrap();
    assert_eq!(b.frame(), None);
    let mut written = Vec::new();
    for _ in 0..6 {
        let slot = b.poll(true).unwrap();
        b.started();
        // While the copy runs, nothing changes.
        let shown = b.frame();
        assert_eq!(b.poll(false), None);
        assert_eq!(b.frame(), shown);
        assert_ne!(b.frame(), Some(slot));
        written.push(slot);
    }
    assert_eq!(written, [0, 1, 2, 3, 0, 1]);
    assert_eq!(b.frame(), Some(0));
}

#[test]
fn the_ring_steps() {
    let mut b = GpuBridge::new(64, 64, 87).unwrap();
    // Without the lock nothing starts.
    assert_eq!(b.step(false, false), None);
    assert_eq!(b.step(false, true), Some(0));
    // The copy still runs.
    assert_eq!(b.step(false, true), None);
    assert_eq!(b.frame(), None);
    // It landed: it is shown, with or without the lock.
    assert_eq!(b.step(true, false), None);
    assert_eq!(b.frame(), Some(0));
    assert_eq!(b.step(false, true), Some(1));
    assert_eq!(b.step(true, true), Some(2));
    assert_eq!(b.frame(), Some(1));
}

#[test]
fn frames_have_a_largest_size() {
    assert_eq!(frame_bytes(64, 64), Some(16384));
    assert_eq!(frame_bytes(4096, 2048), Some(33554432));
    assert_eq!(frame_bytes(4096, 2049), None);
    assert_eq!(frame_bytes(0, 7), None);
    assert_eq!(frame_bytes(u32::MAX, u32::MAX), None);
}

#[test]
fn rows_are_packed_whatever_their_pitch() {
    let mut r = SpoutInputReceiver::new();
    r.connect("sender");
    r.opened(1, 3);
    let tight: Vec<u8> = (0..12).collect();
    assert!(r.try_receive_texture(&tight, 4));
    assert_eq!(r.pixels(), Some(tight.as_slice()));
    let padded: Vec<u8> = (0..16).collect();
    assert!(r.try_receive_texture(&padded, 6));
    assert_eq!(r.take_pixels(), Some(vec![0, 1, 2, 3, 6, 7, 8, 9, 12, 13, 14, 15]));
    assert_eq!(r.take_pixels(), None);
    assert_eq!(r.pixels(), None);
}

#[test]
fn a_receiver_opens_before_it_copies() {
    let mut r = SpoutInputReceiver::new();
    assert_eq!(r.receive_step(), ReceiveStep::Nothing);
    assert_eq!(r.open_shared_texture(&Some(block(5, 2, 2))), Err(SpoutError::NotConnected));
    r.connect("sender");
    assert_eq!(r.receive_step(), ReceiveStep::Open);
    assert_eq!(r.open_shared_texture(&None), Err(SpoutError::NotInSharedMemory));
    assert_eq!(r.open_shared_texture(&Some(block(5, 2, 2))), Ok((5, 2, 2)));
    r.opened(2, 2);
    assert_eq!(r.receive_step(), ReceiveStep::Copy);
    assert_eq!(r.resolution(), (2, 2));
    r.opened(0, 2);
    assert_eq!(r.receive_step(), ReceiveStep::Nothing);
    assert!(!r.try_receive_texture(&[], 0));
    r.disconnect();
    assert_eq!(r.resolution(), (0, 0));
    assert_eq!(r.receive_step(), ReceiveStep::Nothing);
}

#[test]
fn the_gpu_path_is_not_retried_once_ruled_out() {
    let mut r = SpoutInputReceiver::new();
    assert_eq!(r.receive_gpu(true), GpuStep::UseCpu);
    r.connect("sender");
    assert_eq!(r.receive_gpu(true), GpuStep::Open);
    r.opened(64, 64);
    assert_eq!(r.receive_gpu(true), GpuStep::Bridge);
    assert_eq!(r.receive_gpu(false), GpuStep::UseCpu);
    assert_eq!(r.receive_gpu(true), GpuStep::UseCpu);
    r.connect("other");
    assert_eq!(r.receive_gpu(true), GpuStep::UseCpu);
}

#[test]
fn the_ring_is_made_anew_for_another_texture() {
    let mut r = SpoutInputReceiver::new();
    r.connect("sender");
    r.opened(64, 64);
    assert!(r.bridge_is_stale(64, 64, 87));
    r.bridge_made(GpuBridge::new(64, 64, 87));
    assert!(!r.bridge_is_stale(64, 64, 87));
    assert_eq!(r.poll_bridge(false), Some(0));
    assert_eq!(r.bridge_in_flight(), None);
    r.copy_started();
    assert_eq!(r.bridge_in_flight(), Some(0));
    assert_eq!(r.poll_bridge(false), None);
    assert_eq!(r.gpu_frame(), None);
    assert_eq!(r.poll_bridge(true), Some(1));
    assert_eq!(r.gpu_frame(), Some(0));
    assert!(r.bridge_is_stale(64, 64, 28));
    assert_eq!(r.gpu_frame(), None);
    r.bridge_made(None);
    assert_eq!(r.receive_gpu(true), GpuStep::UseCpu);
}

#[test]
fn hardware_frames_have_two_planes() {
    assert!(is_hardware_frame(true, 2));
    assert!(!is_hardware_frame(false, 2));
    assert!(!is_hardware_frame(true, 1));
    assert_eq!(plane_format(0), Some(PlaneFormat::R8Unorm));
    assert_eq!(plane_format(1), Some(PlaneFormat::Rg8Unorm));
    assert_eq!(plane_format(2), None);
    assert_eq!(both_planes(Some(1), Some(2)), Some((1, 2)));
    assert_eq!(both_planes(Some(1), None), None);
    assert_eq!(both_planes(None, Some(2)), None);
}

#[test]
fn a_bundled_copy_wins_over_path() {
    // Nothing beside the executable: fall back to the bare name on PATH.
    assert!(matches!(tool_beside("ffmpeg", "", false), ToolPlace::OnPath(f) if f == "ffmpeg"));
    assert!(matches!(tool_beside("ffmpeg", "", true), ToolPlace::Beside(f) if f == "ffmpeg"));
    assert_eq!(tool_file("ffprobe", ".exe"), "ffprobe.exe");
}
