//! Received DMX: packets, receiver settings and what a datagram turns into.
//!
//! Change detection, merge and recording live upstream: this module only gets universes
//! off the wire.

use vstd::prelude::*;

use crate::dmx::{Universe, DMX_UNIVERSE_SIZE};

verus! {

/// The UDP port of sACN.
pub const SACN_PORT: u16 = 5568;

/// The UDP port of Art-Net.
pub const ARTNET_PORT: u16 = 6454;

/// How many received packets wait for the consumer before further ones are dropped.
pub const RX_BACKLOG: usize = 16384;

/// Which wire protocol a packet arrived on.
#[derive(Debug, Clone, Copy, PartialEq, Eq, Structural)]
pub enum RxProtocol {
    Sacn,
    ArtNet,
}

/// One received universe of DMX.
#[derive(Debug, Clone, Copy)]
pub struct RxPacket {
    pub protocol: RxProtocol,
    pub universe: u16,
    /// sACN per-universe priority; Art-Net has none, reported as 100.
    pub priority: u8,
    pub data: Universe,
}

/// Receiver configuration. `Default` listens for both protocols on their standard ports.
#[derive(Debug, Clone)]
pub struct RxConfig {
    pub sacn: bool,
    pub artnet: bool,
    /// Port overrides for loopback; 0 binds an ephemeral port.
    pub sacn_port: u16,
    pub artnet_port: u16,
    /// sACN universes whose multicast groups to join at the start.
    pub sacn_multicast: Vec<u16>,
}

impl Default for RxConfig {
    fn default() -> (c: RxConfig)
        ensures
            c.sacn && c.artnet,
            c.sacn_port == SACN_PORT,
            c.artnet_port == ARTNET_PORT,
            c.sacn_multicast@.len() == 0,
    {
        RxConfig {
            sacn: true,
            artnet: true,
            sacn_port: SACN_PORT,
            artnet_port: ARTNET_PORT,
            sacn_multicast: Vec::new(),
        }
    }
}

/// A list of slots widened to a full universe with zeros, or cut off at its end.
pub open spec fn padded(data: Seq<u8>) -> Seq<u8> {
    Seq::new(
        DMX_UNIVERSE_SIZE as nat,
        |i: int|
            if i < data.len() {
                data[i]
            } else {
                0u8
            },
    )
}

/// Widens a possibly short on-wire slot list to a full universe.
pub fn pad(data: &[u8]) -> (u: Universe)
    ensures
        u@ == padded(data@),
{
    let mut u: Universe = [0; DMX_UNIVERSE_SIZE];
    let mut i: usize = 0;
    while i < DMX_UNIVERSE_SIZE && i < data.len()
        invariant
            i <= DMX_UNIVERSE_SIZE,
            i <= data.len(),
            forall|j: int| 0 <= j < i ==> #[trigger] u@[j] == data@[j],
            forall|j: int| i <= j < DMX_UNIVERSE_SIZE ==> #[trigger] u@[j] == 0,
        decreases DMX_UNIVERSE_SIZE - i,
    {
        u[i] = data[i];
        i = i + 1;
    }
    assert(u@ =~= padded(data@));
    u
}

/// What a protocol's parser reads out of a datagram: the universe, the priority (sACN) or
/// the sequence number (Art-Net), and the slots.
pub struct Parsed<'a> {
    pub universe: u16,
    pub extra: u8,
    pub slots: &'a [u8],
}

/// The packet that a datagram turns into, given what each protocol's parser makes of it.
/// The magic bytes tell the protocols apart; sACN is asked first.
pub fn parse_packet(sacn: Option<Parsed<'_>>, artnet: Option<Parsed<'_>>) -> (p: Option<RxPacket>)
    ensures
        match (sacn, artnet) {
            (Some(s), _) => p matches Some(p) && p.protocol == RxProtocol::Sacn && p.universe
                == s.universe && p.priority == s.extra && p.data@ == padded(s.slots@),
            (None, Some(a)) => p matches Some(p) && p.protocol == RxProtocol::ArtNet && p.universe
                == a.universe && p.priority == 100 && p.data@ == padded(a.slots@),
            (None, None) => p is None,
        },
{
    if let Some(s) = sacn {
        return Some(
            RxPacket {
                protocol: RxProtocol::Sacn,
                universe: s.universe,
                priority: s.extra,
                data: pad(s.slots),
            },
        );
    }
    match artnet {
        Some(a) => Some(
            RxPacket {
                protocol: RxProtocol::ArtNet,
                universe: a.universe,
                priority: 100,
                data: pad(a.slots),
            },
        ),
        None => None,
    }
}

/// The multicast group of an sACN universe: `239.255.hi.lo`.
pub fn multicast_addr(universe: u16) -> (a: [u8; 4])
    ensures
        a@ == seq![239u8, 255u8, (universe / 256) as u8, (universe % 256) as u8],
{
    let a: [u8; 4] = [239, 255, (universe / 256) as u8, (universe % 256) as u8];
    assert(a@ =~= seq![239u8, 255u8, (universe / 256) as u8, (universe % 256) as u8]);
    a
}

/// Whether a number is a power of two.
pub open spec fn is_power_of_two(n: int) -> bool {
    exists|k: nat| n == #[trigger] vstd::arithmetic::power2::pow2(k)
}

fn power_of_two(n: u64) -> (r: bool)
    ensures
        r == is_power_of_two(n as int),
{
    let mut p: u64 = 1;
    let ghost mut k: nat = 0;
    proof {
        vstd::arithmetic::power2::lemma2_to64();
    }
    if n == 0 {
        proof {
            assert forall|j: nat| 0 != #[trigger] vstd::arithmetic::power2::pow2(j) by {
                vstd::arithmetic::power2::lemma_pow2_pos(j);
            }
        }
        return false;
    }
    while p < n
        invariant
            1 <= p <= n,
            p == vstd::arithmetic::power2::pow2(k),
        decreases n - p,
    {
        proof {
            vstd::arithmetic::power2::lemma_pow2_unfold(k + 1);
        }
        if p > n - p {
            proof {
                assert forall|j: nat| n != #[trigger] vstd::arithmetic::power2::pow2(j) by {
                    if j < k {
                        vstd::arithmetic::power2::lemma_pow2_strictly_increases(j, k);
                    } else if j > k + 1 {
                        vstd::arithmetic::power2::lemma_pow2_strictly_increases(k + 1, j);
                    }
                }
            }
            return false;
        }
        p = p + p;
        proof {
            k = k + 1;
        }
    }
    true
}

/// Counts packets that were dropped because the consumer stalled.
#[derive(Debug, Clone, Copy)]
pub struct DropCounter {
    pub dropped: u64,
}

impl DropCounter {
    /// Counts one more; says whether to warn, which is at every power of two.
    pub fn note(&mut self) -> (warn: bool)
        requires
            old(self).dropped < u64::MAX,
        ensures
            final(self).dropped == old(self).dropped + 1,
            warn == is_power_of_two(final(self).dropped as int),
    {
        self.dropped = self.dropped + 1;
        power_of_two(self.dropped)
    }
}

/// A received universe has every level that came, in place, and zero for those that did
/// not; what came beyond the last channel is dropped.
pub proof fn law_received_universe_is_whole(data: Seq<u8>, ch: int)
    requires
        0 <= ch < 512,
    ensures
        padded(data).len() == 512,
        ch < data.len() ==> padded(data)[ch] == data[ch],
        ch >= data.len() ==> padded(data)[ch] == 0,
{
}

} // verus!
