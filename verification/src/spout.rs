//! Spout input: GPU texture sharing between applications.
//!
//! Senders register themselves in two named shared-memory mappings: a flat array of
//! 256-byte name slots, and per sender a block with the handle and the size of its
//! texture. This module reads those blocks and decides what the receiver does next; the
//! host opens mappings and textures.

use vstd::prelude::*;

verus! {

/// Max bytes per sender name, terminator included.
pub const SPOUT_MAX_NAME_LEN: usize = 256;

/// Max senders that are listed.
pub const SPOUT_MAX_SENDERS: usize = 64;

/// Bytes of a sender's block.
pub const TEXTURE_INFO_LEN: usize = 280;

/// The largest width or height that is opened.
pub const MAX_SPOUT_DIM: u32 = 16384;

/// The largest frame that is received, in bytes.
pub const MAX_FRAME_BYTES: usize = 33554432;

/// Slots the GPU path cycles through. One copy is in flight at a time and the renderer
/// samples the newest finished one, so a slot is only rewritten three copies after it was
/// last shown.
pub const BRIDGE_SLOTS: usize = 4;

/// What `String::from_utf8_lossy` makes of bytes.
pub uninterp spec fn utf8_lossy(bytes: Seq<u8>) -> Seq<char>;

/// `String::from_utf8_lossy`: bytes that are valid UTF-8 are that text, and only no bytes
/// are the empty text. What stands for invalid bytes is left to the name.
#[verifier::external_body]
fn from_utf8_lossy(bytes: &[u8]) -> (s: String)
    ensures
        s@ == utf8_lossy(bytes@),
        s@.len() == 0 <==> bytes@.len() == 0,
        vstd::utf8::valid_utf8(bytes@) ==> vstd::utf8::encode_utf8(s@) == bytes@,
{
    String::from_utf8_lossy(bytes).into_owned()
}

/// Name slot `i` of the map of names.
pub open spec fn slot(map: Seq<u8>, i: int) -> Seq<u8> {
    map.subrange(i * SPOUT_MAX_NAME_LEN, i * SPOUT_MAX_NAME_LEN + SPOUT_MAX_NAME_LEN)
}

/// How many whole slots of the map are looked at.
pub open spec fn slots_in(len: nat) -> nat {
    if len / 256 < SPOUT_MAX_SENDERS {
        len / 256
    } else {
        SPOUT_MAX_SENDERS as nat
    }
}

/// The bytes of a slot up to its first zero.
pub open spec fn up_to_zero(s: Seq<u8>) -> Seq<u8>
    decreases s.len(),
{
    if s.len() == 0 || s[0] == 0 {
        Seq::empty()
    } else {
        seq![s[0]] + up_to_zero(s.skip(1))
    }
}

/// The names in the slots from `i` on: the list ends at an empty slot.
pub open spec fn names_from(map: Seq<u8>, i: nat) -> Seq<Seq<char>>
    decreases slots_in(map.len()) - i,
{
    if i >= slots_in(map.len()) || slot(map, i as int)[0] == 0 {
        Seq::empty()
    } else {
        seq![utf8_lossy(up_to_zero(slot(map, i as int)))] + names_from(map, i + 1)
    }
}

/// How many slots from `i` on come before the first empty one.
pub open spec fn filled_from(map: Seq<u8>, i: nat) -> nat
    decreases slots_in(map.len()) - i,
{
    if i >= slots_in(map.len()) || slot(map, i as int)[0] == 0 {
        0
    } else {
        1 + filled_from(map, i + 1)
    }
}

/// There is one name for each slot before the first empty one, made of that slot's bytes.
pub proof fn law_one_name_per_slot(map: Seq<u8>, i: nat)
    ensures
        names_from(map, i).len() == filled_from(map, i),
        forall|j: int|
            0 <= j < filled_from(map, i) ==> #[trigger] names_from(map, i)[j] == utf8_lossy(
                up_to_zero(slot(map, i + j)),
            ),
    decreases slots_in(map.len()) - i,
{
    if i < slots_in(map.len()) && slot(map, i as int)[0] != 0 {
        law_one_name_per_slot(map, i + 1);
        assert forall|j: int| 0 <= j < filled_from(map, i) implies #[trigger] names_from(map, i)[j]
            == utf8_lossy(up_to_zero(slot(map, i + j))) by {
            if j > 0 {
                assert(names_from(map, i)[j] == names_from(map, i + 1)[j - 1]);
            }
        }
    }
}

/// The views of names.
pub open spec fn name_views(names: Seq<String>) -> Seq<Seq<char>> {
    names.map_values(|s: String| s@)
}

/// Information about an available Spout sender.
#[derive(Debug)]
pub struct SpoutSenderInfo {
    /// Sender name as registered in the map of names.
    pub name: String,
    /// Width of the shared texture (0 is unavailable).
    pub width: u32,
    /// Height of the shared texture (0 is unavailable).
    pub height: u32,
}

/// Discovers active Spout senders from the contents of their mappings.
pub struct SpoutDiscovery;

impl SpoutDiscovery {
    /// The names of all active senders, from the map of names: a flat array of name slots
    /// without a header, which an empty slot ends. No name is empty.
    pub fn sender_names(map: &[u8]) -> (names: Vec<String>)
        ensures
            name_views(names@) == names_from(map@, 0),
            names@.len() == filled_from(map@, 0),
            forall|j: int| 0 <= j < names@.len() ==> (#[trigger] names@[j])@.len() > 0,
    {
        let slots: usize = if map.len() / SPOUT_MAX_NAME_LEN < SPOUT_MAX_SENDERS {
            map.len() / SPOUT_MAX_NAME_LEN
        } else {
            SPOUT_MAX_SENDERS
        };
        let mut names: Vec<String> = Vec::new();
        let mut i: usize = 0;
        assert(name_views(names@) + names_from(map@, 0) =~= names_from(map@, 0));
        while i < slots
            invariant
                i <= slots,
                slots == slots_in(map@.len()),
                slots * SPOUT_MAX_NAME_LEN <= map@.len(),
                names_from(map@, 0) == name_views(names@) + names_from(map@, i as nat),
                names@.len() + filled_from(map@, i as nat) == filled_from(map@, 0),
                forall|j: int| 0 <= j < names@.len() ==> (#[trigger] names@[j])@.len() > 0,
            decreases slots - i,
        {
            let at: usize = i * SPOUT_MAX_NAME_LEN;
            let bytes = vstd::slice::slice_subrange(map, at, at + SPOUT_MAX_NAME_LEN);
            assert(bytes@ =~= slot(map@, i as int));
            if bytes[0] == 0 {
                assert(name_views(names@) + names_from(map@, i as nat) =~= name_views(names@));
                return names;
            }
            let end: usize = first_zero(bytes);
            let text = vstd::slice::slice_subrange(bytes, 0, end);
            assert(text@ =~= bytes@.take(end as int));
            let name = from_utf8_lossy(text);
            let ghost before = names@;
            let ghost view = name@;
            assert(up_to_zero(bytes@).len() > 0);
            names.push(name);
            assert(name_views(names@) =~= name_views(before) + seq![view]);
            assert(name_views(names@) + names_from(map@, (i + 1) as nat) =~= name_views(before) + (
            seq![view] + names_from(map@, (i + 1) as nat)));
            i = i + 1;
        }
        assert(name_views(names@) + names_from(map@, i as nat) =~= name_views(names@));
        names
    }

    /// All active senders, given the block of each, if it could be opened.
    pub fn list_senders(names: Vec<String>, blocks: &Vec<Option<Vec<u8>>>) -> (senders: Vec<
        SpoutSenderInfo,
    >)
        requires
            blocks@.len() == names@.len(),
        ensures
            senders@.len() == names@.len(),
            forall|i: int|
                0 <= i < names@.len() ==> (#[trigger] senders@[i]).name@ == names@[i]@ && (
                senders@[i].width, senders@[i].height) == dimensions_of(block_view(blocks@[i])),
    {
        let mut senders: Vec<SpoutSenderInfo> = Vec::new();
        let mut i: usize = 0;
        while i < names.len()
            invariant
                i <= names.len(),
                blocks@.len() == names@.len(),
                senders@.len() == i,
                forall|j: int|
                    0 <= j < i ==> (#[trigger] senders@[j]).name@ == names@[j]@ && (
                    senders@[j].width, senders@[j].height) == dimensions_of(
                        block_view(blocks@[j]),
                    ),
            decreases names.len() - i,
        {
            let (width, height) = read_sender_dimensions(&blocks[i]);
            senders.push(SpoutSenderInfo { name: names[i].clone(), width, height });
            i = i + 1;
        }
        senders
    }
}

/// Where the first zero byte is, or the length.
fn first_zero(bytes: &[u8]) -> (n: usize)
    ensures
        n <= bytes@.len(),
        bytes@.take(n as int) == up_to_zero(bytes@),
{
    let mut n: usize = 0;
    assert(bytes@.skip(0) =~= bytes@);
    assert(bytes@.take(0) + up_to_zero(bytes@) =~= up_to_zero(bytes@));
    while n < bytes.len() && bytes[n] != 0
        invariant
            n <= bytes.len(),
            up_to_zero(bytes@) == bytes@.take(n as int) + up_to_zero(bytes@.skip(n as int)),
        decreases bytes.len() - n,
    {
        proof {
            let rest = bytes@.skip(n as int);
            assert(rest[0] == bytes@[n as int]);
            assert(rest.skip(1) =~= bytes@.skip(n + 1));
            assert(bytes@.take(n as int) + (seq![bytes@[n as int]] + up_to_zero(
                bytes@.skip(n + 1),
            )) =~= bytes@.take(n + 1) + up_to_zero(bytes@.skip(n + 1)));
        }
        n = n + 1;
    }
    proof {
        if n < bytes@.len() {
            assert(bytes@.skip(n as int)[0] == bytes@[n as int]);
        }
        assert(bytes@.take(n as int) + Seq::<u8>::empty() =~= bytes@.take(n as int));
        assert(up_to_zero(bytes@.skip(n as int)) =~= Seq::<u8>::empty());
    }
    n
}

/// What a sender's block says.
///
/// ```text
/// offset  0: shareHandle  (u32)
/// offset  4: width        (u32)
/// offset  8: height       (u32)
/// offset 12: format       (u32)
/// offset 16: usage        (u32)
/// offset 20: description  [u8; 256]
/// offset 276: partnerId   (u32)
/// ```
#[derive(Debug, Clone, Copy, PartialEq, Eq, Structural)]
pub struct SharedTextureInfo {
    pub share_handle: u32,
    pub width: u32,
    pub height: u32,
    pub format: u32,
    pub usage: u32,
    pub partner_id: u32,
}

/// The little-endian number at a place of a block.
pub open spec fn word_at(b: Seq<u8>, at: int) -> u32 {
    (b[at] + 256 * b[at + 1] + 65536 * b[at + 2] + 16777216 * b[at + 3]) as u32
}

/// What a block says; `None` of one that is too short.
pub open spec fn info_of(b: Seq<u8>) -> Option<SharedTextureInfo> {
    if b.len() < TEXTURE_INFO_LEN {
        None
    } else {
        Some(
            SharedTextureInfo {
                share_handle: word_at(b, 0),
                width: word_at(b, 4),
                height: word_at(b, 8),
                format: word_at(b, 12),
                usage: word_at(b, 16),
                partner_id: word_at(b, 276),
            },
        )
    }
}

fn read_word(b: &[u8], at: usize) -> (w: u32)
    requires
        at + 4 <= b@.len(),
    ensures
        w == word_at(b@, at as int),
{
    b[at] as u32 + 256 * (b[at + 1] as u32) + 65536 * (b[at + 2] as u32) + 16777216 * (
    b[at + 3] as u32)
}

impl SharedTextureInfo {
    /// Reads a block; `None` if it is too short.
    pub fn read(b: &[u8]) -> (r: Option<SharedTextureInfo>)
        ensures
            r == info_of(b@),
    {
        if b.len() < TEXTURE_INFO_LEN {
            return None;
        }
        Some(
            SharedTextureInfo {
                share_handle: read_word(b, 0),
                width: read_word(b, 4),
                height: read_word(b, 8),
                format: read_word(b, 12),
                usage: read_word(b, 16),
                partner_id: read_word(b, 276),
            },
        )
    }
}

/// The contents of a block, if it could be opened.
pub open spec fn block_view(b: Option<Vec<u8>>) -> Option<Seq<u8>> {
    match b {
        Some(b) => Some(b@),
        None => None,
    }
}

/// The size that a block gives; zero where it is missing or too short.
pub open spec fn dimensions_of(b: Option<Seq<u8>>) -> (u32, u32) {
    match b {
        Some(b) => match info_of(b) {
            Some(info) => (info.width, info.height),
            None => (0, 0),
        },
        None => (0, 0),
    }
}

/// The size in a sender's block; zero where the block is missing or too short.
pub fn read_sender_dimensions(block: &Option<Vec<u8>>) -> (r: (u32, u32))
    ensures
        r == dimensions_of(block_view(*block)),
{
    match block {
        Some(b) => match SharedTextureInfo::read(b.as_slice()) {
            Some(info) => (info.width, info.height),
            None => (0, 0),
        },
        None => (0, 0),
    }
}

/// Why a sender's texture cannot be opened.
#[derive(Debug, Clone, Copy, PartialEq, Eq, Structural)]
pub enum SpoutError {
    /// The receiver is not connected to any sender.
    NotConnected,
    /// The sender has no block.
    NotInSharedMemory,
    /// Its block is too short: this many bytes.
    TooSmall(usize),
    /// Its texture has no size.
    ZeroDimensions,
    /// Its handle is null.
    NullHandle,
}

/// A width or height, at most the largest that is opened.
pub open spec fn clamped(v: u32) -> u32 {
    if v < MAX_SPOUT_DIM {
        v
    } else {
        MAX_SPOUT_DIM
    }
}

/// The handle and the clamped size in a sender's block.
pub open spec fn sender_info_of(b: Option<Seq<u8>>) -> Result<(u32, u32, u32), SpoutError> {
    match b {
        None => Err(SpoutError::NotInSharedMemory),
        Some(b) => match info_of(b) {
            None => Err(SpoutError::TooSmall(b.len() as usize)),
            Some(info) => Ok((info.share_handle, clamped(info.width), clamped(info.height))),
        },
    }
}

fn clamp_dim(v: u32) -> (c: u32)
    ensures
        c == clamped(v),
{
    if v < MAX_SPOUT_DIM {
        v
    } else {
        MAX_SPOUT_DIM
    }
}

/// Reads handle and dimensions from a sender's block.
pub fn read_sender_info(block: &Option<Vec<u8>>) -> (r: Result<(u32, u32, u32), SpoutError>)
    ensures
        r == sender_info_of(block_view(*block)),
{
    match block {
        None => Err(SpoutError::NotInSharedMemory),
        Some(b) => match SharedTextureInfo::read(b.as_slice()) {
            None => Err(SpoutError::TooSmall(b.len())),
            Some(info) => Ok((info.share_handle, clamp_dim(info.width), clamp_dim(info.height))),
        },
    }
}

/// What is opened for a sender: its handle and size, unless either is missing.
pub open spec fn target_of(b: Option<Seq<u8>>) -> Result<(u32, u32, u32), SpoutError> {
    match sender_info_of(b) {
        Err(e) => Err(e),
        Ok((handle, width, height)) => if width == 0 || height == 0 {
            Err(SpoutError::ZeroDimensions)
        } else if handle == 0 {
            Err(SpoutError::NullHandle)
        } else {
            Ok((handle, width, height))
        },
    }
}

/// Decides what to open for a sender, from its block.
pub fn shared_texture_target(block: &Option<Vec<u8>>) -> (r: Result<(u32, u32, u32), SpoutError>)
    ensures
        r == target_of(block_view(*block)),
{
    match read_sender_info(block) {
        Err(e) => Err(e),
        Ok((handle, width, height)) => if width == 0 || height == 0 {
            Err(SpoutError::ZeroDimensions)
        } else if handle == 0 {
            Err(SpoutError::NullHandle)
        } else {
            Ok((handle, width, height))
        },
    }
}

/// A pixel format that the GPU path can import.
#[derive(Debug, Clone, Copy, PartialEq, Eq, Structural)]
pub enum BridgeFormat {
    Bgra8Unorm,
    Rgba8Unorm,
    Rgba16Float,
    Rgb10a2Unorm,
}

/// The import format of a DXGI format; `None` sends it down the CPU path.
pub open spec fn import_format(format: i32) -> Option<BridgeFormat> {
    if format == 87 {
        Some(BridgeFormat::Bgra8Unorm)
    } else if format == 28 {
        Some(BridgeFormat::Rgba8Unorm)
    } else if format == 10 {
        Some(BridgeFormat::Rgba16Float)
    } else if format == 24 {
        Some(BridgeFormat::Rgb10a2Unorm)
    } else {
        None
    }
}

/// The import format of a sender's DXGI format; `None` sends it down the CPU path.
pub fn bridge_format(format: i32) -> (f: Option<BridgeFormat>)
    ensures
        f == import_format(format),
{
    if format == 87 {
        Some(BridgeFormat::Bgra8Unorm)
    } else if format == 28 {
        Some(BridgeFormat::Rgba8Unorm)
    } else if format == 10 {
        Some(BridgeFormat::Rgba16Float)
    } else if format == 24 {
        Some(BridgeFormat::Rgb10a2Unorm)
    } else {
        None
    }
}

/// The GPU path's ring of slots.
#[derive(Debug, Clone, Copy)]
pub struct GpuBridge {
    /// Width, height and DXGI format the slots were made for.
    key: (u32, u32, i32),
    /// Newest slot whose copy has finished: what the renderer samples.
    ready: Option<usize>,
    /// Slot with a copy in flight.
    pending: Option<usize>,
    next: usize,
}

/// The slot after one.
pub open spec fn after(slot: int) -> int {
    (slot + 1) % BRIDGE_SLOTS as int
}

impl GpuBridge {
    pub closed spec fn made_for(&self) -> (u32, u32, i32) {
        self.key
    }

    /// The slot that the renderer samples.
    pub closed spec fn shown(&self) -> Option<int> {
        match self.ready {
            Some(r) => Some(r as int),
            None => None,
        }
    }

    /// The slot that is being written.
    pub closed spec fn in_flight(&self) -> Option<int> {
        match self.pending {
            Some(p) => Some(p as int),
            None => None,
        }
    }

    /// The slot that is written next.
    pub closed spec fn target(&self) -> int {
        self.next as int
    }

    /// Slots are written round the ring: the one in flight is behind the one that is
    /// shown, and the next one is behind both.
    pub closed spec fn wf(&self) -> bool {
        &&& self.next < BRIDGE_SLOTS
        &&& self.ready matches Some(r) ==> r < BRIDGE_SLOTS
        &&& self.pending matches Some(p) ==> p < BRIDGE_SLOTS && self.next == after(p as int)
        &&& match (self.ready, self.pending) {
            (Some(r), Some(p)) => p == after(r as int),
            (Some(r), None) => self.next == after(r as int),
            _ => true,
        }
    }

    /// A ring without a frame, for textures of that size and DXGI format; `None` of a
    /// format that cannot be imported.
    pub fn new(width: u32, height: u32, format: i32) -> (r: Option<GpuBridge>)
        ensures
            r is Some <==> import_format(format) is Some,
            r matches Some(b) ==> {
                &&& b.wf()
                &&& b.made_for() == (width, height, format)
                &&& b.shown() is None
                &&& b.in_flight() is None
                &&& b.target() == 0
            },
    {
        match bridge_format(format) {
            Some(_) => Some(
                GpuBridge { key: (width, height, format), ready: None, pending: None, next: 0 },
            ),
            None => None,
        }
    }

    /// Promotes the copy in flight once it has landed. Gives the slot to copy into, or
    /// `None` while a copy is still running.
    pub fn poll(&mut self, landed: bool) -> (slot: Option<usize>)
        requires
            old(self).wf(),
        ensures
            final(self).wf(),
            final(self).made_for() == old(self).made_for(),
            final(self).target() == old(self).target(),
            slot is None <==> old(self).in_flight() is Some && !landed,
            slot is None ==> *final(self) == *old(self),
            slot matches Some(s) ==> {
                &&& s == old(self).target()
                &&& s < BRIDGE_SLOTS
                &&& final(self).in_flight() is None
                &&& final(self).shown() == (if old(self).in_flight() is Some {
                    old(self).in_flight()
                } else {
                    old(self).shown()
                })
                &&& final(self).shown() matches Some(r) ==> s == after(r)
            },
    {
        if let Some(p) = self.pending {
            if !landed {
                return None;
            }
            self.ready = Some(p);
            self.pending = None;
        }
        Some(self.next)
    }

    /// Takes note that a copy into the next slot was started.
    pub fn started(&mut self)
        requires
            old(self).wf(),
            old(self).in_flight() is None,
        ensures
            final(self).wf(),
            final(self).made_for() == old(self).made_for(),
            final(self).shown() == old(self).shown(),
            final(self).in_flight() == Some(old(self).target()),
            final(self).target() == after(old(self).target()),
    {
        let slot: usize = self.next;
        self.pending = Some(slot);
        self.next = (slot + 1) % BRIDGE_SLOTS;
    }

    /// One step of the ring, given whether the copy in flight has landed and whether the
    /// sender's texture could be locked. A copy that still runs is waited for. Otherwise the
    /// one that landed is shown, and with the lock a copy into the slot that is given starts.
    pub fn step(&mut self, landed: bool, locked: bool) -> (slot: Option<usize>)
        requires
            old(self).wf(),
        ensures
            final(self).wf(),
            final(self).made_for() == old(self).made_for(),
            ({
                let waits = old(self).in_flight() is Some && !landed;
                &&& slot is Some <==> !waits && locked
                &&& waits ==> *final(self) == *old(self)
                &&& !waits ==> final(self).shown() == (if old(self).in_flight() is Some {
                    old(self).in_flight()
                } else {
                    old(self).shown()
                })
                &&& slot matches Some(s) ==> {
                    &&& s == old(self).target()
                    &&& final(self).shown() != Some(s as int)
                    &&& final(self).in_flight() == Some(s as int)
                    &&& final(self).target() == after(s as int)
                }
                &&& !waits && !locked ==> final(self).in_flight() is None && final(self).target()
                    == old(self).target()
            }),
    {
        let slot = self.poll(landed);
        if slot.is_none() || !locked {
            return None;
        }
        self.started();
        slot
    }

    /// The slot of the newest landed frame.
    pub fn frame(&self) -> (slot: Option<usize>)
        requires
            self.wf(),
        ensures
            match (slot, self.shown()) {
                (Some(s), Some(r)) => s == r && s < BRIDGE_SLOTS,
                (None, None) => true,
                _ => false,
            },
    {
        self.ready
    }
}

/// A slot that is written is not the one that is shown, and it was shown at least three
/// copies ago: the three slots behind it were all written after it, and the last of them
/// is the one that is shown.
pub proof fn law_target_was_shown_longest_ago(b: GpuBridge)
    requires
        b.wf(),
        b.shown() is Some,
        b.in_flight() is None,
    ensures
        b.target() != b.shown()->0,
        after(after(after(b.target()))) == b.shown()->0,
{
}

/// A slot in flight is never the one that is shown.
pub proof fn law_shown_is_never_in_flight(b: GpuBridge)
    requires
        b.wf(),
    ensures
        b.shown() is Some ==> b.in_flight() != b.shown(),
{
}

/// How many bytes a frame takes; `None` of an empty frame and of one that is too large.
pub open spec fn frame_size(w: u32, h: u32) -> Option<int> {
    let n = w * h * 4;
    if 0 < n <= MAX_FRAME_BYTES {
        Some(n)
    } else {
        None
    }
}

/// How many bytes a frame takes; `None` of an empty frame and of one that is too large.
pub fn frame_bytes(w: u32, h: u32) -> (n: Option<usize>)
    ensures
        match (n, frame_size(w, h)) {
            (Some(n), Some(m)) => n == m,
            (None, None) => true,
            _ => false,
        },
{
    proof {
        assert(w * h <= 0xffff_ffff * 0xffff_ffff) by (nonlinear_arith)
            requires
                0 <= w <= 0xffff_ffff,
                0 <= h <= 0xffff_ffff,
        ;
    }
    let pixels: u64 = w as u64 * h as u64;
    if pixels == 0 || pixels > 8388608 {
        None
    } else {
        Some(pixels as usize * 4)
    }
}

/// The pixels of a frame whose rows lie `pitch` bytes apart, tightly packed.
pub open spec fn packed_rows(src: Seq<u8>, row_bytes: int, rows: nat, pitch: int) -> Seq<u8>
    decreases rows,
{
    if rows == 0 {
        Seq::empty()
    } else {
        packed_rows(src, row_bytes, (rows - 1) as nat, pitch) + src.subrange(
            (rows - 1) * pitch,
            (rows - 1) * pitch + row_bytes,
        )
    }
}

/// Rows that lie directly behind each other are copied as they are.
pub proof fn law_tight_rows_are_the_bytes(src: Seq<u8>, row_bytes: int, rows: nat)
    requires
        0 <= row_bytes,
        rows * row_bytes <= src.len(),
    ensures
        packed_rows(src, row_bytes, rows, row_bytes) == src.take(rows * row_bytes),
    decreases rows,
{
    if rows == 0 {
        assert(src.take(0) =~= Seq::<u8>::empty());
        assert(rows * row_bytes == 0) by (nonlinear_arith)
            requires
                rows == 0,
        ;
    } else {
        let m = (rows - 1) as nat;
        assert(rows * row_bytes == m * row_bytes + row_bytes) by (nonlinear_arith)
            requires
                m == rows - 1,
        ;
        assert(0 <= m * row_bytes) by (nonlinear_arith)
            requires
                0 <= row_bytes,
                0 <= m,
        ;
        law_tight_rows_are_the_bytes(src, row_bytes, m);
        assert(src.take(m * row_bytes) + src.subrange(m * row_bytes, m * row_bytes + row_bytes)
            =~= src.take(rows * row_bytes));
    }
}

/// What the receiver does next when it is polled for a frame.
#[derive(Debug, Clone, Copy, PartialEq, Eq, Structural)]
pub enum ReceiveStep {
    /// Nothing: there is no frame.
    Nothing,
    /// The sender's texture is opened first.
    Open,
    /// A frame is copied and read.
    Copy,
}

/// What the receiver does next on the GPU path.
#[derive(Debug, Clone, Copy, PartialEq, Eq, Structural)]
pub enum GpuStep {
    /// The caller uses the CPU path.
    UseCpu,
    /// The sender's texture is opened first.
    Open,
    /// The ring takes its next step.
    Bridge,
}

/// Receives frames from a Spout sender.
pub struct SpoutInputReceiver {
    /// Name of the connected sender; `None` is disconnected.
    sender_name: Option<String>,
    /// Whether the sender's texture is open.
    open: bool,
    /// Current resolution of the shared texture.
    resolution: (u32, u32),
    /// Pixels of the last received frame.
    pixel_buffer: Vec<u8>,
    /// The GPU path, once it was set up.
    gpu: Option<GpuBridge>,
    /// Set once the GPU path has proved impossible, so that it isn't retried.
    gpu_unavailable: bool,
}

impl SpoutInputReceiver {
    pub closed spec fn sender(&self) -> Option<Seq<char>> {
        match self.sender_name {
            Some(s) => Some(s@),
            None => None,
        }
    }

    pub closed spec fn is_open(&self) -> bool {
        self.open
    }

    pub closed spec fn size(&self) -> (u32, u32) {
        self.resolution
    }

    pub closed spec fn buffer(&self) -> Seq<u8> {
        self.pixel_buffer@
    }

    pub closed spec fn bridge(&self) -> Option<GpuBridge> {
        self.gpu
    }

    pub closed spec fn gpu_ruled_out(&self) -> bool {
        self.gpu_unavailable
    }

    /// The ring, if there is one, is in order.
    pub closed spec fn wf(&self) -> bool {
        self.gpu matches Some(b) ==> b.wf()
    }

    /// Whether all but the named parts are as before.
    pub open spec fn same_link(&self, other: SpoutInputReceiver) -> bool {
        &&& self.sender() == other.sender()
        &&& self.is_open() == other.is_open()
        &&& self.size() == other.size()
    }

    /// An unconnected receiver.
    pub fn new() -> (r: SpoutInputReceiver)
        ensures
            r.wf(),
            r.sender() is None,
            !r.is_open(),
            r.size() == (0u32, 0u32),
            r.buffer().len() == 0,
            r.bridge() is None,
            !r.gpu_ruled_out(),
    {
        SpoutInputReceiver {
            sender_name: None,
            open: false,
            resolution: (0, 0),
            pixel_buffer: Vec::new(),
            gpu: None,
            gpu_unavailable: false,
        }
    }

    /// Connects to the named sender. Its texture is opened next.
    pub fn connect(&mut self, sender_name: &str)
        ensures
            final(self).wf(),
            final(self).sender() == Some(sender_name@),
            !final(self).is_open(),
            final(self).size() == (0u32, 0u32),
            final(self).buffer().len() == 0,
            final(self).bridge() is None,
            final(self).gpu_ruled_out() == old(self).gpu_ruled_out(),
    {
        self.disconnect();
        self.sender_name = Some(sender_name.to_owned());
    }

    /// Disconnects from the current sender and forgets what was received from it.
    pub fn disconnect(&mut self)
        ensures
            final(self).wf(),
            final(self).sender() is None,
            !final(self).is_open(),
            final(self).size() == (0u32, 0u32),
            final(self).buffer().len() == 0,
            final(self).bridge() is None,
            final(self).gpu_ruled_out() == old(self).gpu_ruled_out(),
    {
        self.open = false;
        self.resolution = (0, 0);
        self.pixel_buffer.clear();
        self.gpu = None;
        self.sender_name = None;
    }

    /// Decides what to open for the connected sender, from its block.
    pub fn open_shared_texture(&self, block: &Option<Vec<u8>>) -> (r: Result<
        (u32, u32, u32),
        SpoutError,
    >)
        ensures
            r == (if self.sender() is None {
                Err(SpoutError::NotConnected)
            } else {
                target_of(block_view(*block))
            }),
    {
        if self.sender_name.is_none() {
            return Err(SpoutError::NotConnected);
        }
        shared_texture_target(block)
    }

    /// Takes note that the sender's texture was opened.
    pub fn opened(&mut self, width: u32, height: u32)
        requires
            old(self).wf(),
        ensures
            final(self).wf(),
            final(self).sender() == old(self).sender(),
            final(self).is_open(),
            final(self).size() == (width, height),
            final(self).buffer() == old(self).buffer(),
            final(self).bridge() == old(self).bridge(),
            final(self).gpu_ruled_out() == old(self).gpu_ruled_out(),
    {
        self.open = true;
        self.resolution = (width, height);
    }

    /// What to do when polled for a frame.
    pub fn receive_step(&self) -> (s: ReceiveStep)
        ensures
            s == (if self.sender() is None {
                ReceiveStep::Nothing
            } else if !self.is_open() {
                ReceiveStep::Open
            } else if self.size().0 == 0 || self.size().1 == 0 {
                ReceiveStep::Nothing
            } else {
                ReceiveStep::Copy
            }),
    {
        if self.sender_name.is_none() {
            ReceiveStep::Nothing
        } else if !self.open {
            ReceiveStep::Open
        } else if self.resolution.0 == 0 || self.resolution.1 == 0 {
            ReceiveStep::Nothing
        } else {
            ReceiveStep::Copy
        }
    }

    /// Reads a mapped frame whose rows lie `row_pitch` bytes apart into the pixel buffer,
    /// rows tightly packed. Returns whether new pixels are ready: a frame that is too
    /// large is refused.
    pub fn try_receive_texture(&mut self, src: &[u8], row_pitch: usize) -> (ready: bool)
        requires
            old(self).wf(),
            frame_size(old(self).size().0, old(self).size().1) is Some ==> (old(self).size().1
                - 1) * row_pitch + old(self).size().0 * 4 <= src@.len(),
        ensures
            final(self).wf(),
            final(self).same_link(*old(self)),
            final(self).bridge() == old(self).bridge(),
            final(self).gpu_ruled_out() == old(self).gpu_ruled_out(),
            ready == (frame_size(old(self).size().0, old(self).size().1) is Some),
            ready ==> final(self).buffer() == packed_rows(
                src@,
                old(self).size().0 * 4,
                old(self).size().1 as nat,
                row_pitch as int,
            ),
            !ready ==> final(self).buffer() == old(self).buffer(),
    {
        let (w, h) = self.resolution;
        if frame_bytes(w, h).is_none() {
            return false;
        }
        proof {
            assert(w <= w * h && h <= w * h) by (nonlinear_arith)
                requires
                    w * h * 4 > 0,
                    0 <= w,
                    0 <= h,
            ;
        }
        let row_bytes: usize = w as usize * 4;
        let rows: usize = h as usize;
        assert(src.len() == src@.len());
        let mut pixels: Vec<u8> = Vec::new();
        let mut row: usize = 0;
        let mut at: usize = 0;
        while row < rows
            invariant
                row <= rows,
                at == row * row_pitch || row == rows,
                row < rows ==> (rows - 1) * row_pitch + row_bytes <= src.len(),
                pixels@ == packed_rows(src@, row_bytes as int, row as nat, row_pitch as int),
            decreases rows - row,
        {
            proof {
                assert(row * row_pitch <= (rows - 1) * row_pitch) by (nonlinear_arith)
                    requires
                        0 <= row <= rows - 1,
                        0 <= row_pitch,
                ;
            }
            let line = vstd::slice::slice_subrange(src, at, at + row_bytes);
            pixels.extend_from_slice(line);
            proof {
                assert(pixels@ =~= packed_rows(
                    src@,
                    row_bytes as int,
                    (row + 1) as nat,
                    row_pitch as int,
                ));
            }
            row = row + 1;
            if row < rows {
                proof {
                    assert(row * row_pitch == (row - 1) * row_pitch + row_pitch) by (nonlinear_arith);
                    assert(row * row_pitch <= (rows - 1) * row_pitch) by (nonlinear_arith)
                        requires
                            0 <= row <= rows - 1,
                            0 <= row_pitch,
                    ;
                }
                at = at + row_pitch;
            }
        }
        self.pixel_buffer = pixels;
        true
    }

    /// Whether to run on the GPU path, given whether the device can import the textures.
    /// Where it cannot, the path is not tried again.
    pub fn receive_gpu(&mut self, can_import: bool) -> (s: GpuStep)
        requires
            old(self).wf(),
        ensures
            final(self).wf(),
            final(self).same_link(*old(self)),
            final(self).buffer() == old(self).buffer(),
            final(self).bridge() == old(self).bridge(),
            s == (if old(self).gpu_ruled_out() || old(self).sender() is None || !can_import {
                GpuStep::UseCpu
            } else if !old(self).is_open() {
                GpuStep::Open
            } else {
                GpuStep::Bridge
            }),
            final(self).gpu_ruled_out() == (old(self).gpu_ruled_out() || (old(self).sender() is Some
                && !can_import)),
    {
        if self.gpu_unavailable || self.sender_name.is_none() {
            return GpuStep::UseCpu;
        }
        if !can_import {
            self.gpu_unavailable = true;
            return GpuStep::UseCpu;
        }
        if !self.open {
            GpuStep::Open
        } else {
            GpuStep::Bridge
        }
    }

    /// Whether the ring has to be made anew for a texture of that size and format. If so
    /// the old one goes first.
    pub fn bridge_is_stale(&mut self, width: u32, height: u32, format: i32) -> (stale: bool)
        requires
            old(self).wf(),
        ensures
            final(self).wf(),
            final(self).same_link(*old(self)),
            final(self).buffer() == old(self).buffer(),
            final(self).gpu_ruled_out() == old(self).gpu_ruled_out(),
            stale == match old(self).bridge() {
                Some(b) => b.made_for() != (width, height, format),
                None => true,
            },
            final(self).bridge() == (if stale {
                None
            } else {
                old(self).bridge()
            }),
    {
        let stale = match &self.gpu {
            Some(b) => !(b.key.0 == width && b.key.1 == height && b.key.2 == format),
            None => true,
        };
        if stale {
            self.gpu = None;
        }
        stale
    }

    /// Takes note of whether a new ring could be made. Where it could not, the GPU path
    /// is not tried again.
    pub fn bridge_made(&mut self, bridge: Option<GpuBridge>)
        requires
            old(self).wf(),
            bridge matches Some(b) ==> b.wf(),
        ensures
            final(self).wf(),
            final(self).same_link(*old(self)),
            final(self).buffer() == old(self).buffer(),
            final(self).bridge() == (if bridge is Some {
                bridge
            } else {
                old(self).bridge()
            }),
            final(self).gpu_ruled_out() == (old(self).gpu_ruled_out() || bridge is None),
    {
        if bridge.is_some() {
            self.gpu = bridge;
        } else {
            self.gpu_unavailable = true;
        }
    }

    /// Promotes the ring's copy in flight once it has landed; gives the slot to copy
    /// into next, if a copy is to be made.
    pub fn poll_bridge(&mut self, landed: bool) -> (slot: Option<usize>)
        requires
            old(self).wf(),
        ensures
            final(self).wf(),
            final(self).same_link(*old(self)),
            final(self).buffer() == old(self).buffer(),
            final(self).gpu_ruled_out() == old(self).gpu_ruled_out(),
            match (old(self).bridge(), final(self).bridge()) {
                (Some(before), Some(now)) => {
                    &&& now.made_for() == before.made_for()
                    &&& slot is None <==> before.in_flight() is Some && !landed
                    &&& slot is None ==> now == before
                    &&& slot matches Some(s) ==> {
                        &&& s == before.target()
                        &&& s < BRIDGE_SLOTS
                        &&& now.in_flight() is None
                        &&& now.target() == before.target()
                        &&& now.shown() == (if before.in_flight() is Some {
                            before.in_flight()
                        } else {
                            before.shown()
                        })
                    }
                },
                (None, None) => slot is None,
                _ => false,
            },
    {
        match self.gpu {
            Some(b) => {
                let mut ring = b;
                let slot = ring.poll(landed);
                self.gpu = Some(ring);
                slot
            },
            None => None,
        }
    }

    /// The slot of the ring that is being written, if a copy runs.
    pub fn bridge_in_flight(&self) -> (slot: Option<usize>)
        requires
            self.wf(),
        ensures
            match self.bridge() {
                Some(b) => match (slot, b.in_flight()) {
                    (Some(s), Some(p)) => s == p && s < BRIDGE_SLOTS,
                    (None, None) => true,
                    _ => false,
                },
                None => slot is None,
            },
    {
        match &self.gpu {
            Some(b) => b.pending,
            None => None,
        }
    }

    /// Takes note that the ring's copy was started.
    pub fn copy_started(&mut self)
        requires
            old(self).wf(),
            old(self).bridge() matches Some(b) ==> b.in_flight() is None,
        ensures
            final(self).wf(),
            final(self).same_link(*old(self)),
            final(self).buffer() == old(self).buffer(),
            final(self).gpu_ruled_out() == old(self).gpu_ruled_out(),
            match (old(self).bridge(), final(self).bridge()) {
                (Some(before), Some(now)) => {
                    &&& now.made_for() == before.made_for()
                    &&& now.shown() == before.shown()
                    &&& now.in_flight() == Some(before.target())
                    &&& now.target() == after(before.target())
                },
                (None, None) => true,
                _ => false,
            },
    {
        if let Some(b) = self.gpu {
            let mut ring = b;
            ring.started();
            self.gpu = Some(ring);
        }
    }

    /// The slot of the newest frame that has landed on the GPU path, if one has yet.
    pub fn gpu_frame(&self) -> (slot: Option<usize>)
        requires
            self.wf(),
        ensures
            match self.bridge() {
                Some(b) => match (slot, b.shown()) {
                    (Some(s), Some(r)) => s == r && s < BRIDGE_SLOTS,
                    (None, None) => true,
                    _ => false,
                },
                None => slot is None,
            },
    {
        match &self.gpu {
            Some(b) => b.frame(),
            None => None,
        }
    }

    /// Moves the pixels out of the receiver, if there are any. The buffer stays empty
    /// until the next frame.
    pub fn take_pixels(&mut self) -> (pixels: Option<Vec<u8>>)
        requires
            old(self).wf(),
        ensures
            final(self).wf(),
            final(self).same_link(*old(self)),
            final(self).bridge() == old(self).bridge(),
            final(self).gpu_ruled_out() == old(self).gpu_ruled_out(),
            final(self).buffer().len() == 0,
            pixels is None <==> old(self).buffer().len() == 0,
            pixels matches Some(p) ==> p@ == old(self).buffer(),
    {
        if self.pixel_buffer.len() == 0 {
            None
        } else {
            let mut pixels: Vec<u8> = Vec::new();
            std::mem::swap(&mut pixels, &mut self.pixel_buffer);
            Some(pixels)
        }
    }

    /// The pixels, if there are any, without moving them.
    pub fn pixels(&self) -> (pixels: Option<&[u8]>)
        ensures
            pixels is None <==> self.buffer().len() == 0,
            pixels matches Some(p) ==> p@ == self.buffer(),
    {
        if self.pixel_buffer.len() == 0 {
            None
        } else {
            Some(self.pixel_buffer.as_slice())
        }
    }

    /// Current resolution of the shared texture.
    pub fn resolution(&self) -> (r: (u32, u32))
        ensures
            r == self.size(),
    {
        self.resolution
    }
}

/// A word is four bytes, the lowest first.
pub proof fn law_word_layout(b: Seq<u8>, at: int)
    requires
        0 <= at,
        at + 4 <= b.len(),
    ensures
        word_at(b, at) == b[at] + 0x100 * b[at + 1] + 0x10000 * b[at + 2] + 0x1000000 * b[at + 3],
{
}

/// A sender's block holds the handle, the width, the height, the format and the usage as
/// the first five words, and the partner id as the last one of its 280 bytes. A shorter
/// block holds nothing.
pub proof fn law_block_layout(b: Seq<u8>)
    ensures
        info_of(b) is None <==> b.len() < 280,
        info_of(b) matches Some(info) ==> {
            &&& info.share_handle == b[0] + 0x100 * b[1] + 0x10000 * b[2] + 0x1000000 * b[3]
            &&& info.width == b[4] + 0x100 * b[5] + 0x10000 * b[6] + 0x1000000 * b[7]
            &&& info.height == b[8] + 0x100 * b[9] + 0x10000 * b[10] + 0x1000000 * b[11]
            &&& info.format == b[12] + 0x100 * b[13] + 0x10000 * b[14] + 0x1000000 * b[15]
            &&& info.usage == b[16] + 0x100 * b[17] + 0x10000 * b[18] + 0x1000000 * b[19]
            &&& info.partner_id == b[276] + 0x100 * b[277] + 0x10000 * b[278] + 0x1000000 * b[279]
        },
{
    if b.len() >= 280 {
        law_word_layout(b, 0);
        law_word_layout(b, 4);
        law_word_layout(b, 8);
        law_word_layout(b, 12);
        law_word_layout(b, 16);
        law_word_layout(b, 276);
    }
}

/// A size is kept as it is up to the largest that is opened, and cut to that above it.
pub proof fn law_clamped_size(v: u32)
    ensures
        clamped(v) <= 16384,
        v <= 16384 ==> clamped(v) == v,
        v > 16384 ==> clamped(v) == 16384,
{
}

/// The size of a sender is that in its block; without a whole block it has none.
pub proof fn law_sender_dimensions(b: Option<Seq<u8>>)
    ensures
        dimensions_of(b) == (match b {
            Some(b) if b.len() >= 280 => (
                (b[4] + 0x100 * b[5] + 0x10000 * b[6] + 0x1000000 * b[7]) as u32,
                (b[8] + 0x100 * b[9] + 0x10000 * b[10] + 0x1000000 * b[11]) as u32,
            ),
            _ => (0u32, 0u32),
        }),
{
    if let Some(b) = b {
        law_block_layout(b);
    }
}

/// What a sender is refused for: no block, then a short one, then a texture without a
/// width or height, then a null handle. Every other one is opened, at the size in its
/// block, clamped.
pub proof fn law_refused_senders(b: Option<Seq<u8>>)
    ensures
        match target_of(b) {
            Err(SpoutError::NotInSharedMemory) => b is None,
            Err(SpoutError::TooSmall(n)) => b matches Some(b) && b.len() < 280 && n
                == b.len() as usize,
            Err(SpoutError::ZeroDimensions) => b matches Some(b) && (info_of(b) matches Some(info)
                && (info.width == 0 || info.height == 0)),
            Err(SpoutError::NullHandle) => b matches Some(b) && (info_of(b) matches Some(info)
                && info.width != 0 && info.height != 0 && info.share_handle == 0),
            Err(SpoutError::NotConnected) => false,
            Ok((handle, width, height)) => b matches Some(b) && (info_of(b) matches Some(info)
                && handle == info.share_handle && handle != 0 && 0 < width <= 16384 && 0 < height
                <= 16384 && (info.width <= 16384 ==> width == info.width) && (info.width > 16384
                ==> width == 16384) && (info.height <= 16384 ==> height == info.height) && (
            info.height > 16384 ==> height == 16384)),
        },
        match sender_info_of(b) {
            Err(SpoutError::NotInSharedMemory) => b is None,
            Err(SpoutError::TooSmall(n)) => b matches Some(b) && b.len() < 280 && n
                == b.len() as usize,
            Err(_) => false,
            Ok((handle, width, height)) => b matches Some(b) && (info_of(b) matches Some(info)
                && handle == info.share_handle && width == clamped(info.width) && height
                == clamped(info.height)),
        },
{
}

/// The four texture formats that can be imported, by their number, and no other.
pub proof fn law_importable_formats(format: i32)
    ensures
        import_format(format) == Some(BridgeFormat::Rgba16Float) <==> format == 10,
        import_format(format) == Some(BridgeFormat::Rgb10a2Unorm) <==> format == 24,
        import_format(format) == Some(BridgeFormat::Rgba8Unorm) <==> format == 28,
        import_format(format) == Some(BridgeFormat::Bgra8Unorm) <==> format == 87,
        import_format(format) is None <==> format != 10 && format != 24 && format != 28 && format
            != 87,
{
}

/// The slots take turns: each one is followed by the next, the last one by the first.
pub proof fn law_slots_take_turns(slot: int)
    requires
        0 <= slot < 4,
    ensures
        slot < 3 ==> after(slot) == slot + 1,
        slot == 3 ==> after(slot) == 0,
{
}

/// A frame takes four bytes a pixel. One without pixels has no size, nor has one of more
/// than 32 MiB.
pub proof fn law_frame_bytes(w: u32, h: u32)
    ensures
        frame_size(w, h) matches Some(n) ==> n == w * h * 4,
        frame_size(w, h) is Some <==> w > 0 && h > 0 && w * h * 4 <= 32 * 1024 * 1024,
{
    assert((w * h * 4 > 0) == (w > 0 && h > 0)) by (nonlinear_arith);
}

/// Packed rows hold the bytes of each row in turn, without what pads it: byte `x` of row
/// `y` comes from where that row starts in the source.
pub proof fn law_packed_pixels(
    src: Seq<u8>,
    row_bytes: int,
    rows: nat,
    pitch: int,
    y: int,
    x: int,
)
    requires
        0 <= row_bytes <= pitch,
        rows > 0 ==> (rows - 1) * pitch + row_bytes <= src.len(),
    ensures
        packed_rows(src, row_bytes, rows, pitch).len() == rows * row_bytes,
        0 <= y < rows && 0 <= x < row_bytes ==> packed_rows(src, row_bytes, rows, pitch)[y
            * row_bytes + x] == src[y * pitch + x],
    decreases rows,
{
    if rows > 0 {
        let n = (rows - 1) as nat;
        let before = packed_rows(src, row_bytes, n, pitch);
        if n > 0 {
            assert((n - 1) * pitch + row_bytes <= n * pitch + row_bytes) by (nonlinear_arith)
                requires
                    0 <= pitch,
            ;
        }
        law_packed_pixels(src, row_bytes, n, pitch, y, x);
        assert(0 <= n * pitch) by (nonlinear_arith)
            requires
                0 <= pitch,
        ;
        let last = src.subrange(n * pitch, n * pitch + row_bytes);
        assert(n * row_bytes + row_bytes == rows * row_bytes) by (nonlinear_arith)
            requires
                rows == n + 1,
        ;
        if 0 <= y < rows && 0 <= x < row_bytes {
            if y < n {
                assert(0 <= y * row_bytes + x < n * row_bytes) by (nonlinear_arith)
                    requires
                        0 <= y <= n - 1,
                        0 <= x < row_bytes,
                ;
                assert(packed_rows(src, row_bytes, rows, pitch)[y * row_bytes + x] == before[y
                    * row_bytes + x]);
            } else {
                assert(y == n);
                assert(packed_rows(src, row_bytes, rows, pitch)[n * row_bytes + x] == last[x]);
            }
        }
    } else {
        assert(rows * row_bytes == 0) by (nonlinear_arith)
            requires
                rows == 0,
        ;
    }
}

/// A name ends before the first zero byte, or with its slot.
pub proof fn law_name_ends_at_zero(s: Seq<u8>)
    ensures
        up_to_zero(s).len() <= s.len(),
        up_to_zero(s) == s.take(up_to_zero(s).len() as int),
        forall|i: int| 0 <= i < up_to_zero(s).len() ==> #[trigger] s[i] != 0,
        up_to_zero(s).len() < s.len() ==> s[up_to_zero(s).len() as int] == 0,
    decreases s.len(),
{
    if s.len() > 0 && s[0] != 0 {
        let rest = s.skip(1);
        law_name_ends_at_zero(rest);
        let n = up_to_zero(rest).len() as int;
        assert(up_to_zero(s).len() == n + 1);
        assert(up_to_zero(s) =~= s.take(n + 1)) by {
            assert forall|i: int| 0 <= i < n + 1 implies up_to_zero(s)[i] == #[trigger] s[i] by {
                if i > 0 {
                    assert(up_to_zero(rest)[i - 1] == rest.take(n)[i - 1]);
                }
            }
        }
        assert forall|i: int| 0 <= i < n + 1 implies #[trigger] s[i] != 0 by {
            if i > 0 {
                assert(rest[i - 1] != 0);
            }
        }
        if n + 1 < s.len() {
            assert(rest[n] == s[n + 1]);
        }
    } else {
        assert(s.take(0) =~= Seq::<u8>::empty());
    }
}

/// The names in the map are those of its slots of 256 bytes, of 64 of them at most, up to
/// the first one that is empty.
pub proof fn law_names_fill_their_slots(map: Seq<u8>)
    ensures
        ({
            let n = filled_from(map, 0) as int;
            &&& n <= 64 && n * 256 <= map.len()
            &&& n < 64 && n * 256 + 256 <= map.len() ==> map[n * 256] == 0
            &&& names_from(map, 0).len() == n
            &&& forall|j: int|
                0 <= j < n ==> #[trigger] names_from(map, 0)[j] == utf8_lossy(
                    up_to_zero(map.subrange(j * 256, j * 256 + 256)),
                )
            &&& forall|j: int|
                0 <= j < n ==> (#[trigger] map.subrange(j * 256, j * 256 + 256))[0] != 0
        }),
{
    lemma_filled(map, 0);
    law_one_name_per_slot(map, 0);
    let n = filled_from(map, 0) as int;
    assert forall|j: int| 0 <= j < n implies #[trigger] names_from(map, 0)[j] == utf8_lossy(
        up_to_zero(map.subrange(j * 256, j * 256 + 256)),
    ) by {
        assert(slot(map, 0 + j) == map.subrange(j * 256, j * 256 + 256));
    }
    assert forall|j: int| 0 <= j < n implies (#[trigger] map.subrange(
        j * 256,
        j * 256 + 256,
    ))[0] != 0 by {
        assert(slot(map, j)[0] != 0);
    }
    if n < 64 && n * 256 + 256 <= map.len() {
        assert(slot(map, n)[0] == map[n * 256]);
    }
}

proof fn lemma_filled(map: Seq<u8>, i: nat)
    ensures
        i <= slots_in(map.len()) ==> i + filled_from(map, i) <= slots_in(map.len()),
        slots_in(map.len()) <= 64,
        slots_in(map.len()) * 256 <= map.len(),
        slots_in(map.len()) < 64 ==> map.len() < slots_in(map.len()) * 256 + 256,
        forall|j: int| i <= j < i + filled_from(map, i) ==> #[trigger] slot(map, j)[0] != 0,
        i + filled_from(map, i) < slots_in(map.len()) ==> slot(
            map,
            (i + filled_from(map, i)) as int,
        )[0] == 0,
    decreases slots_in(map.len()) - i,
{
    if i < slots_in(map.len()) && slot(map, i as int)[0] != 0 {
        lemma_filled(map, i + 1);
    }
}

/// Two receivers have the same link when they have the same sender, its texture is open
/// for both or for neither, and it has one size.
pub proof fn law_same_link(a: SpoutInputReceiver, b: SpoutInputReceiver)
    ensures
        a.same_link(a),
        a.same_link(b) <==> a.sender() == b.sender() && a.is_open() == b.is_open() && a.size()
            == b.size(),
{
}

} // verus!
