//! Recorded-show playback.
//!
//! [`ShowPlayer`] advances through a `.dmxrec` event log and keeps the channel state
//! at the playhead as a [`MaskedFrame`]: a sparse frame with per-channel ownership, so
//! that a recording only claims the channels it touches.

use std::collections::BTreeMap;
use vstd::prelude::*;

use crate::dmx::{Universe, DMX_UNIVERSE_SIZE};
use crate::rec;
use crate::rec::{rec_duration_ms, RecEvent};

verus! {

broadcast use vstd::std_specs::btree::group_btree_axioms;

/// One universe of values plus a bitmask of which channels are owned.
#[derive(Debug, Clone, Copy)]
pub struct MaskedUniverse {
    values: Universe,
    mask: [u64; 8],
}

/// What a [`MaskedUniverse`] says of its channels: `Some` of the value of an owned
/// channel, `None` for a channel that is not owned.
pub type Levels = Seq<Option<u8>>;

/// A universe that owns nothing.
pub open spec fn unclaimed() -> Levels {
    Seq::new(DMX_UNIVERSE_SIZE as nat, |i: int| None::<u8>)
}

/// Whether bit `ch % 64` of mask word `ch / 64` is set.
pub closed spec fn mask_bit(mask: Seq<u64>, ch: int) -> bool {
    mask[ch / 64] & (1u64 << ((ch % 64) as u64)) != 0
}

impl View for MaskedUniverse {
    type V = Levels;

    closed spec fn view(&self) -> Levels {
        Seq::new(
            DMX_UNIVERSE_SIZE as nat,
            |ch: int| if mask_bit(self.mask@, ch) { Some(self.values@[ch]) } else { None },
        )
    }
}

impl MaskedUniverse {
    /// A channel that is not owned holds 0.
    #[verifier::type_invariant]
    spec fn unowned_is_zero(&self) -> bool {
        forall|ch: int|
            0 <= ch < DMX_UNIVERSE_SIZE && !mask_bit(self.mask@, ch) ==> #[trigger] self.values@[ch]
                == 0
    }

    fn set(&mut self, ch: usize, value: u8)
        requires
            ch < DMX_UNIVERSE_SIZE,
        ensures
            final(self)@ == old(self)@.update(ch as int, Some(value)),
    {
        proof {
            use_type_invariant(&*self);
        }
        let word: usize = ch / 64;
        let bit: u64 = (ch % 64) as u64;
        let mut values = self.values;
        let mut mask = self.mask;
        let before: u64 = mask[word];
        values[ch] = value;
        mask[word] = before | (1u64 << bit);
        proof {
            assert forall|c: int| 0 <= c < DMX_UNIVERSE_SIZE implies mask_bit(mask@, c) == (c == ch
                || mask_bit(self.mask@, c)) by {
                let b = (c % 64) as u64;
                assert((before | (1u64 << bit)) & (1u64 << b) != 0 <==> (b == bit || before & (1u64
                    << b) != 0)) by (bit_vector)
                    requires
                        bit < 64,
                        b < 64,
                ;
            }
        }
        *self = MaskedUniverse { values, mask };
        assert(self@ =~= old(self)@.update(ch as int, Some(value)));
    }

    /// Every channel back to 0, with what is owned still owned.
    fn zeroed(&self) -> (u: MaskedUniverse)
        ensures
            u@ == at_zero(self@),
    {
        let u = MaskedUniverse { values: [0; DMX_UNIVERSE_SIZE], mask: self.mask };
        assert(u@ =~= at_zero(self@));
        u
    }

    /// Whether the channel takes part in the merge.
    pub fn owned(&self, ch: usize) -> (owned: bool)
        requires
            ch < DMX_UNIVERSE_SIZE,
        ensures
            owned == (self@[ch as int] is Some),
    {
        self.mask[ch / 64] & (1u64 << ((ch % 64) as u64)) != 0
    }

    /// The values of all channels; one that is not owned reads 0.
    pub fn values(&self) -> (values: &Universe)
        ensures
            self@.len() == DMX_UNIVERSE_SIZE,
            values@.len() == DMX_UNIVERSE_SIZE,
            forall|ch: int|
                0 <= ch < DMX_UNIVERSE_SIZE ==> #[trigger] values@[ch] == self@[ch].unwrap_or(0),
    {
        proof {
            use_type_invariant(self);
        }
        &self.values
    }
}

impl Default for MaskedUniverse {
    fn default() -> (u: MaskedUniverse)
        ensures
            u@ == unclaimed(),
    {
        let values: Universe = [0; DMX_UNIVERSE_SIZE];
        let mask: [u64; 8] = [0; 8];
        let u = MaskedUniverse { values, mask };
        proof {
            assert forall|ch: int| 0 <= ch < DMX_UNIVERSE_SIZE implies !mask_bit(u.mask@, ch) by {
                let b = (ch % 64) as u64;
                assert(0u64 & (1u64 << b) == 0) by (bit_vector);
            }
            assert(u@ =~= unclaimed());
        }
        u
    }
}

/// The same channels owned, each at value 0.
pub open spec fn at_zero(levels: Levels) -> Levels {
    levels.map_values(|l: Option<u8>| if l is Some { Some(0u8) } else { None })
}

/// The contents of a [`MaskedFrame`]: what each universe it holds says of its channels.
pub type FrameLevels = Map<u16, Levels>;

/// The levels of a universe in a frame; one that the frame does not hold owns nothing.
pub open spec fn levels_of(frame: FrameLevels, universe: u16) -> Levels {
    if frame.contains_key(universe) {
        frame[universe]
    } else {
        unclaimed()
    }
}

/// A frame after one channel was set. A channel past the end of the universe
/// changes nothing.
pub open spec fn with_channel(
    frame: FrameLevels,
    universe: u16,
    channel: u16,
    value: u8,
) -> FrameLevels {
    if channel < DMX_UNIVERSE_SIZE {
        frame.insert(universe, levels_of(frame, universe).update(channel as int, Some(value)))
    } else {
        frame
    }
}

/// A universe after `bytes` were written from channel `start` on, cut off at its end.
pub open spec fn with_span(levels: Levels, start: int, bytes: Seq<u8>) -> Levels {
    Seq::new(
        levels.len(),
        |ch: int|
            if start <= ch < start + bytes.len() {
                Some(bytes[ch - start])
            } else {
                levels[ch]
            },
    )
}

/// The channel index of a 1-based DMX address; address 0 is read as 1.
pub open spec fn address_index(address: u16) -> int {
    if address == 0 {
        0
    } else {
        address - 1
    }
}

/// Where a fixture of `footprint` channels goes when the next free place is channel
/// `ch` of `universe`: there if it fits, else the start of the next universe.
pub open spec fn fit(universe: u16, ch: int, footprint: int) -> (u16, int) {
    if ch + footprint > DMX_UNIVERSE_SIZE {
        (if universe == u16::MAX { 0u16 } else { (universe + 1) as u16 }, 0)
    } else {
        (universe, ch)
    }
}

/// The universe and channel of fixture `k`, packed from `ch` of `universe` on.
pub open spec fn fixture_place(k: nat, universe: u16, ch: int, footprint: int) -> (u16, int)
    decreases k,
{
    if k == 0 {
        fit(universe, ch, footprint)
    } else {
        let last = fixture_place((k - 1) as nat, universe, ch, footprint);
        fit(last.0, last.1 + footprint, footprint)
    }
}

/// The bytes of fixture `k` in fixture-major data; the last one may be short.
pub open spec fn fixture_bytes(data: Seq<u8>, k: nat, footprint: int) -> Seq<u8> {
    let from = k * footprint;
    let to = from + footprint;
    data.subrange(from, if to <= data.len() { to } else { data.len() as int })
}

/// A frame after the first `n` fixtures of `data` were packed into it.
pub open spec fn with_fixtures(
    frame: FrameLevels,
    n: nat,
    footprint: int,
    data: Seq<u8>,
    universe: u16,
    ch: int,
) -> FrameLevels
    decreases n,
{
    if n == 0 {
        frame
    } else {
        let k = (n - 1) as nat;
        let before = with_fixtures(frame, k, footprint, data, universe, ch);
        let place = fixture_place(k, universe, ch, footprint);
        before.insert(
            place.0,
            with_span(levels_of(before, place.0), place.1, fixture_bytes(data, k, footprint)),
        )
    }
}

/// How many fixtures `len` bytes of data hold; a short last one counts.
pub open spec fn fixture_count(len: nat, footprint: int) -> nat
    recommends
        footprint > 0,
{
    ((len + footprint - 1) / footprint) as nat
}

/// Whether the numbers come in strictly increasing order.
pub open spec fn ascending(s: Seq<u16>) -> bool {
    forall|i: int, j: int| 0 <= i < j < s.len() ==> s[i] < s[j]
}

/// The universe numbers of a frame's items.
pub open spec fn universes_of(items: Seq<(u16, &MaskedUniverse)>) -> Seq<u16> {
    items.map_values(|item: (u16, &MaskedUniverse)| item.0)
}

/// A sparse set of universes with per-channel ownership. Only owned channels take
/// part in [`crate::merge::composite`].
#[derive(Debug)]
pub struct MaskedFrame {
    universes: BTreeMap<u16, MaskedUniverse>,
}

impl Clone for MaskedFrame {
    fn clone(&self) -> (frame: MaskedFrame)
        ensures
            frame@ == self@,
    {
        MaskedFrame { universes: self.universes.clone() }
    }
}

impl View for MaskedFrame {
    type V = FrameLevels;

    closed spec fn view(&self) -> FrameLevels {
        self.universes@.map_values(|u: MaskedUniverse| u@)
    }
}

impl Default for MaskedFrame {
    fn default() -> (frame: MaskedFrame)
        ensures
            frame@ == Map::<u16, Levels>::empty(),
    {
        let frame = MaskedFrame { universes: BTreeMap::new() };
        assert(frame@ =~= Map::<u16, Levels>::empty());
        frame
    }
}

impl MaskedFrame {
    /// A copy of a universe; one that the frame does not hold owns nothing.
    fn universe(&self, universe: u16) -> (u: MaskedUniverse)
        ensures
            u@ == levels_of(self@, universe),
            u@.len() == DMX_UNIVERSE_SIZE,
    {
        match self.universes.get(&universe) {
            Some(u) => *u,
            None => MaskedUniverse::default(),
        }
    }

    fn put(&mut self, universe: u16, u: MaskedUniverse)
        ensures
            final(self)@ == old(self)@.insert(universe, u@),
    {
        self.universes.insert(universe, u);
        assert(self@ =~= old(self)@.insert(universe, u@));
    }

    /// Sets one channel (0-based) and marks it owned.
    pub fn set(&mut self, universe: u16, channel: u16, value: u8)
        ensures
            final(self)@ == with_channel(old(self)@, universe, channel, value),
    {
        let ch: usize = channel as usize;
        if ch < DMX_UNIVERSE_SIZE {
            let mut u = self.universe(universe);
            u.set(ch, value);
            self.put(universe, u);
        }
    }

    /// Writes `bytes` into one universe from channel `start` on, cut off at its end.
    fn put_span(&mut self, universe: u16, start: usize, bytes: &[u8])
        requires
            start <= u16::MAX,
        ensures
            final(self)@ == old(self)@.insert(
                universe,
                with_span(levels_of(old(self)@, universe), start as int, bytes@),
            ),
    {
        let mut u = self.universe(universe);
        let ghost levels = u@;
        let mut i: usize = 0;
        assert(u@ =~= with_span(levels, start as int, bytes@.take(0)));
        while i < bytes.len() && start + i < DMX_UNIVERSE_SIZE
            invariant
                i <= bytes.len(),
                start <= u16::MAX,
                i <= DMX_UNIVERSE_SIZE,
                levels.len() == DMX_UNIVERSE_SIZE,
                u@ == with_span(levels, start as int, bytes@.take(i as int)),
            decreases bytes.len() - i,
        {
            u.set(start + i, bytes[i]);
            i = i + 1;
            assert(u@ =~= with_span(levels, start as int, bytes@.take(i as int)));
        }
        assert(u@ =~= with_span(levels, start as int, bytes@));
        self.put(universe, u);
    }

    /// Writes a contiguous span starting at a 1-based DMX address, clamped at the end
    /// of the universe: it does not wrap.
    pub fn write_span(&mut self, universe: u16, address: u16, bytes: &[u8])
        ensures
            final(self)@ == old(self)@.insert(
                universe,
                with_span(levels_of(old(self)@, universe), address_index(address), bytes@),
            ),
    {
        let start: usize = if address == 0 {
            0
        } else {
            address as usize - 1
        };
        self.put_span(universe, start, bytes);
    }

    /// Packs fixture-major `data` from `start_universe`/`start_channel` (1-based),
    /// never splitting a fixture across a universe boundary. A footprint of 0, or one
    /// larger than a universe, packs nothing.
    pub fn pack_fixtures(
        &mut self,
        footprint: usize,
        data: &[u8],
        start_universe: u16,
        start_channel: u16,
    )
        ensures
            0 < footprint <= DMX_UNIVERSE_SIZE ==> final(self)@ == with_fixtures(
                old(self)@,
                fixture_count(data@.len(), footprint as int),
                footprint as int,
                data@,
                start_universe,
                address_index(start_channel),
            ),
            !(0 < footprint <= DMX_UNIVERSE_SIZE) ==> final(self)@ == old(self)@,
    {
        if footprint == 0 || footprint > DMX_UNIVERSE_SIZE {
            return;
        }
        let start: usize = if start_channel == 0 {
            0
        } else {
            start_channel as usize - 1
        };
        let mut universe: u16 = start_universe;
        let mut ch: usize = start;
        let mut at: usize = 0;
        let ghost mut k: nat = 0;
        let ghost fp = footprint as int;
        proof {
            lemma_no_fixtures(fp);
        }
        while at < data.len()
            invariant
                0 < footprint <= DMX_UNIVERSE_SIZE,
                fp == footprint,
                start <= u16::MAX,
                ch <= u16::MAX,
                at <= data.len(),
                at < data.len() ==> at == k * fp,
                at == data.len() ==> k == fixture_count(data@.len(), fp),
                k == 0 ==> universe == start_universe && ch == start,
                k > 0 ==> {
                    let last = fixture_place((k - 1) as nat, start_universe, start as int, fp);
                    universe == last.0 && ch == last.1 + fp
                },
                self@ == with_fixtures(old(self)@, k, fp, data@, start_universe, start as int),
            decreases data.len() - at,
        {
            if ch + footprint > DMX_UNIVERSE_SIZE {
                universe = universe.wrapping_add(1);
                ch = 0;
            }
            let left: usize = data.len() - at;
            let n: usize = if footprint < left {
                footprint
            } else {
                left
            };
            let fixture = vstd::slice::slice_subrange(data, at, at + n);
            assert(fixture@ =~= fixture_bytes(data@, k, fp));
            assert((universe, ch as int) == fixture_place(k, start_universe, start as int, fp));
            self.put_span(universe, ch, fixture);
            ch = ch + footprint;
            proof {
                assert((k + 1) * fp == k * fp + fp) by (nonlinear_arith);
                if at + n == data.len() {
                    lemma_last_fixture(data@.len(), k, fp);
                }
                k = k + 1;
            }
            at = at + n;
        }
    }

    /// The universe's levels, if the frame holds it.
    pub fn get(&self, universe: u16) -> (u: Option<&MaskedUniverse>)
        ensures
            u is Some <==> self@.contains_key(universe),
            u matches Some(u) ==> u@ == self@[universe] && u@.len() == DMX_UNIVERSE_SIZE,
    {
        self.universes.get(&universe)
    }

    /// The universes that the frame holds, in increasing order.
    fn keys(&self) -> (keys: Vec<u16>)
        ensures
            ascending(keys@),
            keys@.to_set() == self@.dom(),
    {
        let mut keys: Vec<u16> = Vec::new();
        let entries = self.universes.keys();
        proof {
            broadcast use vstd::laws_cmp::group_laws_cmp;

            let refs = vstd::std_specs::iter::IteratorSpec::remaining(&entries);
            assert(vstd::laws_cmp::obeys_cmp::<&u16>());
            assert forall|i: int, j: int| 0 <= i < j < refs.len() implies *refs[i] < *refs[j] by {
                assert(vstd::std_specs::cmp::OrdSpec::cmp_spec(&refs[i], &refs[j]) is Less);
            }
        }
        for k in it: entries
            invariant
                forall|i: int, j: int|
                    0 <= i < j < it.seq().len() ==> *it.seq()[i] < *it.seq()[j],
                it.seq().unref().to_set() == self.universes@.dom(),
                keys@ == it.seq().unref().take(it.index()),
                it.index() == it.seq().len() ==> keys@ == it.seq().unref(),
                ascending(keys@),
        {
            keys.push(*k);
        }
        assert(self@.dom() =~= self.universes@.dom());
        keys
    }

    /// The frame's universes in increasing order, each with its levels.
    pub fn iter(&self) -> (items: Vec<(u16, &MaskedUniverse)>)
        ensures
            ascending(universes_of(items@)),
            universes_of(items@).to_set() == self@.dom(),
            forall|i: int|
                0 <= i < items@.len() ==> (#[trigger] items@[i]).1@ == self@[items@[i].0],
    {
        let keys = self.keys();
        let mut items: Vec<(u16, &MaskedUniverse)> = Vec::new();
        let mut i: usize = 0;
        while i < keys.len()
            invariant
                i <= keys.len(),
                keys@.to_set() == self@.dom(),
                universes_of(items@) == keys@.take(i as int),
                forall|j: int|
                    0 <= j < items@.len() ==> (#[trigger] items@[j]).1@ == self@[items@[j].0],
            decreases keys.len() - i,
        {
            let key: u16 = keys[i];
            assert(keys@.to_set().contains(key));
            let ghost before = items@;
            if let Some(u) = self.get(key) {
                items.push((key, u));
                assert(universes_of(items@) =~= universes_of(before).push(key));
            }
            i = i + 1;
            assert(universes_of(items@) =~= keys@.take(i as int));
        }
        assert(keys@.take(keys@.len() as int) =~= keys@);
        items
    }

    /// Every value back to 0, with what is owned still owned.
    fn zero_values(&mut self)
        ensures
            final(self)@ == zeroed(old(self)@),
    {
        let mut out = MaskedFrame::default();
        let items = self.iter();
        let ghost keys = universes_of(items@);
        let mut i: usize = 0;
        while i < items.len()
            invariant
                i <= items.len(),
                keys == universes_of(items@),
                ascending(keys),
                forall|j: int|
                    0 <= j < items@.len() ==> (#[trigger] items@[j]).1@ == self@[items@[j].0],
                forall|k: u16| #[trigger]
                    out@.contains_key(k) <==> exists|j: int| 0 <= j < i && #[trigger] keys[j] == k,
                forall|k: u16| #[trigger] out@.contains_key(k) ==> out@[k] == at_zero(self@[k]),
            decreases items.len() - i,
        {
            let (key, u) = items[i];
            assert(keys[i as int] == key);
            out.put(key, u.zeroed());
            i = i + 1;
        }
        proof {
            assert forall|k: u16| self@.contains_key(k) <==> out@.contains_key(k) by {
                assert(keys.to_set().contains(k) <==> keys.contains(k));
            }
            assert(out@ =~= zeroed(self@));
        }
        *self = out;
    }

    /// Whether the frame holds no universe.
    pub fn is_empty(&self) -> (empty: bool)
        ensures
            empty <==> self@ == Map::<u16, Levels>::empty(),
    {
        let empty = self.universes.is_empty();
        proof {
            assert(self@.dom() =~= self.universes@.dom());
            if self.universes@.dom().len() == 0 {
                assert(self.universes@.dom() =~= Set::empty());
                assert(self@ =~= Map::<u16, Levels>::empty());
            }
        }
        empty
    }
}

proof fn lemma_no_fixtures(fp: int)
    requires
        fp > 0,
    ensures
        fixture_count(0, fp) == 0,
{
    assert((fp - 1) / fp == 0) by (nonlinear_arith)
        requires
            fp > 0,
    ;
}

proof fn lemma_last_fixture(len: nat, k: nat, fp: int)
    requires
        fp > 0,
        k * fp < len <= k * fp + fp,
    ensures
        fixture_count(len, fp) == k + 1,
{
    assert((len + fp - 1) / fp == k + 1) by (nonlinear_arith)
        requires
            fp > 0,
            k * fp < len <= k * fp + fp,
    ;
}

/// A frame after the values of the first `n` events were set in it.
pub open spec fn with_events(frame: FrameLevels, events: Seq<RecEvent>, n: nat) -> FrameLevels
    decreases n,
{
    if n == 0 {
        frame
    } else {
        let e = events[n - 1];
        with_channel(
            with_events(frame, events, (n - 1) as nat),
            e.universe,
            e.channel,
            e.value,
        )
    }
}

/// Every channel that the first `n` events touch, at value 0.
pub open spec fn claimed(events: Seq<RecEvent>, n: nat) -> FrameLevels
    decreases n,
{
    if n == 0 {
        Map::empty()
    } else {
        let e = events[n - 1];
        with_channel(claimed(events, (n - 1) as nat), e.universe, e.channel, 0)
    }
}

/// How far a playhead at `t_ms` gets into the log when it has come to event `from`: up
/// to the first event that lies after it.
pub open spec fn reached_from(events: Seq<RecEvent>, t_ms: u32, from: nat) -> nat
    decreases events.len() - from,
{
    if from < events.len() && events[from as int].t_ms <= t_ms {
        reached_from(events, t_ms, from + 1)
    } else {
        from
    }
}

/// The channel state of a log at a moment: all its channels are claimed, at value 0
/// until their first event.
pub open spec fn frame_at(events: Seq<RecEvent>, t_ms: u32) -> FrameLevels {
    with_events(claimed(events, events.len()), events, reached_from(events, t_ms, 0))
}

/// Playhead over a time-ordered `.dmxrec` event log.
///
/// The full channel set is claimed up front, so ownership never grows during playback
/// and a loop wrap can reset values without channels coming or going in the merge.
pub struct ShowPlayer {
    events: Vec<RecEvent>,
    duration_ms: u32,
    cursor: usize,
    pos_ms: u32,
    frame: MaskedFrame,
}

impl ShowPlayer {
    /// The log that is played.
    pub closed spec fn log(&self) -> Seq<RecEvent> {
        self.events@
    }

    /// The channel state at the playhead.
    pub closed spec fn state(&self) -> FrameLevels {
        self.frame@
    }

    /// The state is that of the log's first events, and the playhead has passed them.
    pub closed spec fn wf(&self) -> bool {
        &&& self.cursor <= self.events@.len()
        &&& self.duration_ms == rec::duration_of(self.events@)
        &&& forall|i: int|
            0 <= i < self.cursor ==> (#[trigger] self.events@[i]).t_ms <= self.pos_ms
        &&& self.frame@ == with_events(
            claimed(self.events@, self.events@.len()),
            self.events@,
            self.cursor as nat,
        )
    }

    /// A player at the start of a log, before its first event.
    pub fn new(events: Vec<RecEvent>) -> (player: ShowPlayer)
        ensures
            player.wf(),
            player.log() == events@,
            player.state() == claimed(events@, events@.len()),
    {
        let duration_ms: u32 = rec_duration_ms(events.as_slice());
        let mut frame = MaskedFrame::default();
        let mut i: usize = 0;
        while i < events.len()
            invariant
                i <= events.len(),
                frame@ == claimed(events@, i as nat),
            decreases events.len() - i,
        {
            let e = events[i];
            frame.set(e.universe, e.channel, 0);
            i = i + 1;
        }
        ShowPlayer { events, duration_ms, cursor: 0, pos_ms: 0, frame }
    }

    /// The timestamp of the log's last event.
    pub fn duration_ms(&self) -> (ms: u32)
        requires
            self.wf(),
        ensures
            ms == rec::duration_of(self.log()),
    {
        self.duration_ms
    }

    /// Moves the playhead to `t_ms`, applying events along the way. Seeking backwards
    /// (loop wrap, scrub) replays from zero state.
    pub fn seek(&mut self, t_ms: u32)
        requires
            old(self).wf(),
        ensures
            final(self).wf(),
            final(self).log() == old(self).log(),
            final(self).state() == frame_at(old(self).log(), t_ms),
    {
        let ghost base = claimed(self.events@, self.events@.len());
        if t_ms < self.pos_ms {
            proof {
                lemma_zeroed_events(self.events@, self.cursor as nat);
            }
            self.frame.zero_values();
            self.cursor = 0;
        }
        proof {
            lemma_reached(self.events@, t_ms, self.cursor as nat);
        }
        while self.cursor < self.events.len() && self.events[self.cursor].t_ms <= t_ms
            invariant
                self.events@ == old(self).events@,
                self.duration_ms == old(self).duration_ms,
                self.cursor <= self.events@.len(),
                base == claimed(self.events@, self.events@.len()),
                self.frame@ == with_events(base, self.events@, self.cursor as nat),
                forall|i: int|
                    0 <= i < self.cursor ==> (#[trigger] self.events@[i]).t_ms <= t_ms,
                reached_from(self.events@, t_ms, 0) == reached_from(
                    self.events@,
                    t_ms,
                    self.cursor as nat,
                ),
            decreases self.events.len() - self.cursor,
        {
            let e = self.events[self.cursor];
            self.frame.set(e.universe, e.channel, e.value);
            self.cursor = self.cursor + 1;
        }
        self.pos_ms = t_ms;
    }

    /// The channel state at the current playhead.
    pub fn frame(&self) -> (frame: &MaskedFrame)
        ensures
            frame@ == self.state(),
    {
        &self.frame
    }
}

/// The frame with every value at 0.
pub open spec fn zeroed(frame: FrameLevels) -> FrameLevels {
    frame.map_values(|l: Levels| at_zero(l))
}

proof fn lemma_reached(events: Seq<RecEvent>, t_ms: u32, n: nat)
    requires
        n <= events.len(),
        forall|i: int| 0 <= i < n ==> (#[trigger] events[i]).t_ms <= t_ms,
    ensures
        reached_from(events, t_ms, 0) == reached_from(events, t_ms, n),
    decreases n,
{
    if n > 0 {
        lemma_reached(events, t_ms, (n - 1) as nat);
    }
}

/// Whether a frame speaks of every channel of its universes.
pub open spec fn full(frame: FrameLevels) -> bool {
    forall|u: u16| #[trigger] frame.contains_key(u) ==> frame[u].len() == DMX_UNIVERSE_SIZE
}

/// Any frame speaks of every channel of its universes.
pub proof fn law_frames_are_full(frame: MaskedFrame)
    ensures
        full(frame@),
{
}

proof fn lemma_zeroed_channel(frame: FrameLevels, universe: u16, channel: u16, value: u8)
    requires
        full(frame),
    ensures
        full(with_channel(frame, universe, channel, value)),
        zeroed(with_channel(frame, universe, channel, value)) == with_channel(
            zeroed(frame),
            universe,
            channel,
            0,
        ),
{
    assert(at_zero(unclaimed()) =~= unclaimed());
    if channel < DMX_UNIVERSE_SIZE {
        let l = levels_of(frame, universe);
        assert(at_zero(l.update(channel as int, Some(value))) =~= at_zero(l).update(
            channel as int,
            Some(0u8),
        ));
        assert(levels_of(zeroed(frame), universe) == at_zero(l));
    }
    assert(zeroed(with_channel(frame, universe, channel, value)) =~= with_channel(
        zeroed(frame),
        universe,
        channel,
        0,
    ));
}

/// Whether a frame holds a channel at 0.
spec fn holds_zero(frame: FrameLevels, universe: u16, channel: u16) -> bool {
    channel < DMX_UNIVERSE_SIZE ==> frame.contains_key(universe) && frame[universe][channel as int]
        == Some(0u8)
}

proof fn lemma_claimed(events: Seq<RecEvent>, n: nat)
    requires
        n <= events.len(),
    ensures
        zeroed(claimed(events, n)) == claimed(events, n),
        full(claimed(events, n)),
        forall|i: int|
            0 <= i < n ==> holds_zero(
                claimed(events, n),
                (#[trigger] events[i]).universe,
                events[i].channel,
            ),
    decreases n,
{
    if n > 0 {
        let m = (n - 1) as nat;
        let e = events[m as int];
        lemma_claimed(events, m);
        lemma_zeroed_channel(claimed(events, m), e.universe, e.channel, 0);
    } else {
        assert(zeroed(claimed(events, n)) =~= claimed(events, n));
    }
}

proof fn lemma_zeroed_events(events: Seq<RecEvent>, n: nat)
    requires
        n <= events.len(),
    ensures
        full(with_events(claimed(events, events.len()), events, n)),
        zeroed(with_events(claimed(events, events.len()), events, n)) == claimed(
            events,
            events.len(),
        ),
    decreases n,
{
    let base = claimed(events, events.len());
    lemma_claimed(events, events.len());
    if n > 0 {
        let m = (n - 1) as nat;
        let e = events[m as int];
        lemma_zeroed_events(events, m);
        lemma_zeroed_channel(with_events(base, events, m), e.universe, e.channel, e.value);
        assert(holds_zero(base, e.universe, e.channel));
        if e.channel < DMX_UNIVERSE_SIZE {
            assert(base[e.universe].update(e.channel as int, Some(0u8)) =~= base[e.universe]);
        }
        assert(with_channel(base, e.universe, e.channel, 0) =~= base);
    }
}

/// No fixture is split: each lies wholly inside its universe.
pub proof fn law_fixtures_never_split(k: nat, universe: u16, address: u16, footprint: int)
    requires
        0 < footprint <= DMX_UNIVERSE_SIZE,
    ensures
        0 <= fixture_place(k, universe, address_index(address), footprint).1,
        fixture_place(k, universe, address_index(address), footprint).1 + footprint
            <= DMX_UNIVERSE_SIZE,
    decreases k,
{
    if k > 0 {
        law_fixtures_never_split((k - 1) as nat, universe, address, footprint);
    }
}

/// Whether one of the first `n` events sets the channel.
pub open spec fn touches(events: Seq<RecEvent>, n: nat, universe: u16, ch: int) -> bool {
    exists|i: int|
        0 <= i < n && (#[trigger] events[i]).universe == universe && events[i].channel == ch
}

/// The value that the last of the first `n` events gave the channel, 0 before any did.
pub open spec fn last_value(events: Seq<RecEvent>, n: nat, universe: u16, ch: int) -> u8
    decreases n,
{
    if n == 0 {
        0
    } else if events[n - 1].universe == universe && events[n - 1].channel == ch {
        events[n - 1].value
    } else {
        last_value(events, (n - 1) as nat, universe, ch)
    }
}

proof fn lemma_claimed_level(events: Seq<RecEvent>, n: nat, universe: u16, ch: int)
    requires
        n <= events.len(),
        0 <= ch < DMX_UNIVERSE_SIZE,
    ensures
        levels_of(claimed(events, n), universe)[ch] == (if touches(events, n, universe, ch) {
            Some(0u8)
        } else {
            None
        }),
    decreases n,
{
    if n > 0 {
        let m = (n - 1) as nat;
        let e = events[m as int];
        lemma_claimed_level(events, m, universe, ch);
        lemma_claimed(events, m);
        assert(touches(events, n, universe, ch) <==> touches(events, m, universe, ch) || (e.universe
            == universe && e.channel == ch));
    }
}

proof fn lemma_level(events: Seq<RecEvent>, n: nat, universe: u16, ch: int)
    requires
        n <= events.len(),
        0 <= ch < DMX_UNIVERSE_SIZE,
    ensures
        levels_of(with_events(claimed(events, events.len()), events, n), universe)[ch] == (
        if touches(events, events.len(), universe, ch) {
            Some(last_value(events, n, universe, ch))
        } else {
            None
        }),
    decreases n,
{
    let base = claimed(events, events.len());
    lemma_claimed_level(events, events.len(), universe, ch);
    if n > 0 {
        let m = (n - 1) as nat;
        lemma_level(events, m, universe, ch);
        lemma_zeroed_events(events, m);
    }
}

/// The state of a log speaks of every channel of its universes.
pub proof fn lemma_frame_is_full(events: Seq<RecEvent>, t_ms: u32)
    ensures
        full(frame_at(events, t_ms)),
{
    lemma_reached_bound(events, t_ms, 0);
    lemma_zeroed_events(events, reached_from(events, t_ms, 0));
}

/// At every moment a channel that the log touches is owned, at the value of its last
/// event up to the playhead, or 0 before its first one; no other channel is owned.
/// Ownership is thus the same at every moment, also across a loop wrap.
pub proof fn law_channel_at(events: Seq<RecEvent>, t_ms: u32, universe: u16, ch: int)
    requires
        0 <= ch < DMX_UNIVERSE_SIZE,
    ensures
        levels_of(frame_at(events, t_ms), universe)[ch] == (if touches(
            events,
            events.len(),
            universe,
            ch,
        ) {
            Some(last_value(events, reached_from(events, t_ms, 0), universe, ch))
        } else {
            None
        }),
{
    lemma_reached_bound(events, t_ms, 0);
    lemma_level(events, reached_from(events, t_ms, 0), universe, ch);
}

pub proof fn lemma_reached_bound(events: Seq<RecEvent>, t_ms: u32, from: nat)
    requires
        from <= events.len(),
    ensures
        from <= reached_from(events, t_ms, from) <= events.len(),
        forall|i: int|
            from <= i < reached_from(events, t_ms, from) ==> (#[trigger] events[i]).t_ms <= t_ms,
        reached_from(events, t_ms, from) < events.len() ==> events[reached_from(
            events,
            t_ms,
            from,
        ) as int].t_ms > t_ms,
    decreases events.len() - from,
{
    if from < events.len() && events[from as int].t_ms <= t_ms {
        lemma_reached_bound(events, t_ms, from + 1);
    }
}

/// In a time-ordered log the playhead has passed exactly the events up to its moment.
pub proof fn law_reached(events: Seq<RecEvent>, t_ms: u32)
    requires
        rec::in_time_order(events),
    ensures
        forall|i: int|
            0 <= i < events.len() ==> ((#[trigger] events[i]).t_ms <= t_ms <==> i < reached_from(
                events,
                t_ms,
                0,
            )),
{
    lemma_reached_bound(events, t_ms, 0);
}

} // verus!
