//! Per-channel punch-in recording over an existing take.
//!
//! During a pass, a channel punches in the moment its incoming value first differs from
//! what the existing take plays at that moment (0 for channels that the take never
//! touches), and stays live until the pass ends. On [`PunchRecorder::finish`] the
//! channel's base events inside `[punch_time, pass_end)` are replaced by the pass; base
//! events from the pass end on resume. Untouched channels keep their base events.
//!
//! Pass events are streamed into a log as they happen, so a crash loses seconds, not the
//! take; the merged take is composed at the end.
//!
//! The recorder has no clock: callers stamp inputs with `t_ms` from their own pass clock.

use std::collections::BTreeMap;
use vstd::prelude::*;

use crate::dmx::{Universe, DMX_UNIVERSE_SIZE};
use crate::order;
use crate::order::order_by_key;
use crate::play;
use crate::play::{FrameLevels, MaskedFrame, ShowPlayer};
use crate::rec;
use crate::rec::{RecEvent, RecWriter};

verus! {

broadcast use vstd::std_specs::btree::group_btree_axioms;

/// A channel: its universe and its number there.
pub type Place = (u16, u16);

/// The state of a pass.
pub struct Pass {
    /// The existing take.
    pub base: Seq<RecEvent>,
    /// What was captured so far.
    pub events: Seq<RecEvent>,
    /// When each punched channel punched in.
    pub punched: Map<Place, u32>,
    /// The last recorded value of each punched channel.
    pub live: Map<Place, u8>,
    /// The latest time of an input.
    pub pos: u32,
}

/// A pass over a take before its first input.
pub open spec fn new_pass(base: Seq<RecEvent>) -> Pass {
    Pass {
        base,
        events: Seq::empty(),
        punched: Map::empty(),
        live: Map::empty(),
        pos: 0,
    }
}

/// What a take plays on a channel at a moment; 0 where it never touches it.
pub open spec fn value_at(take: Seq<RecEvent>, t_ms: u32, place: Place) -> u8 {
    play::levels_of(play::frame_at(take, t_ms), place.0)[place.1 as int].unwrap_or(0)
}

/// A pass after a value was recorded.
pub open spec fn recorded(p: Pass, t_ms: u32, place: Place, value: u8) -> Pass {
    Pass {
        events: p.events.push(
            RecEvent { t_ms, universe: place.0, channel: place.1, value },
        ),
        live: p.live.insert(place, value),
        ..p
    }
}

/// A pass after one channel of input.
pub open spec fn after_input(p: Pass, t_ms: u32, place: Place, value: u8) -> Pass {
    if place.1 >= DMX_UNIVERSE_SIZE {
        p
    } else {
        let p = Pass {
            pos: if p.pos >= t_ms {
                p.pos
            } else {
                t_ms
            },
            ..p
        };
        if p.live.contains_key(place) {
            if p.live[place] != value {
                recorded(p, t_ms, place, value)
            } else {
                p
            }
        } else if value != value_at(p.base, t_ms, place) {
            recorded(Pass { punched: p.punched.insert(place, t_ms), ..p }, t_ms, place, value)
        } else {
            p
        }
    }
}

/// A pass after the first `n` channels of a received universe.
pub open spec fn after_channels(
    p: Pass,
    t_ms: u32,
    universe: u16,
    data: Seq<u8>,
    n: nat,
) -> Pass
    decreases n,
{
    if n == 0 {
        p
    } else {
        after_input(
            after_channels(p, t_ms, universe, data, (n - 1) as nat),
            t_ms,
            (universe, (n - 1) as u16),
            data[n - 1],
        )
    }
}

/// Whether a base event survives the pass: its channel did not punch in, or it lies
/// before the punch or at the pass end or later.
pub open spec fn kept(p: Pass, e: RecEvent) -> bool {
    p.punched.contains_key((e.universe, e.channel)) ==> e.t_ms < p.punched[(
        e.universe,
        e.channel,
    )] || e.t_ms >= p.pos
}

/// The surviving base events, then the pass.
pub open spec fn parts(p: Pass) -> Seq<RecEvent> {
    p.base.filter(|e: RecEvent| kept(p, e)) + p.events
}

/// Times of events, as sort keys.
pub open spec fn times(events: Seq<RecEvent>) -> Seq<u64> {
    events.map_values(|e: RecEvent| e.t_ms as u64)
}

/// Events in time order, ties in their order.
pub open spec fn by_time(events: Seq<RecEvent>) -> Seq<RecEvent> {
    Seq::new(events.len(), |i: int| events[order::stable_order(times(events))[i]])
}

/// The take that a pass leaves behind.
pub open spec fn merged_take(p: Pass) -> Seq<RecEvent> {
    by_time(parts(p))
}

/// A frame with the live values of the punched channels over it.
pub open spec fn overlaid(frame: FrameLevels, live: Map<Place, u8>) -> FrameLevels {
    Map::new(
        |u: u16| frame.contains_key(u) || exists|c: u16| live.contains_key((u, c)),
        |u: u16|
            Seq::new(
                DMX_UNIVERSE_SIZE as nat,
                |c: int|
                    if live.contains_key((u, c as u16)) {
                        Some(live[(u, c as u16)])
                    } else {
                        play::levels_of(frame, u)[c]
                    },
            ),
    )
}

/// Whether every captured event belongs to a channel that has punched in, and exactly
/// those channels are live.
pub open spec fn consistent(p: Pass) -> bool {
    &&& p.punched.dom() == p.live.dom()
    &&& forall|i: int|
        0 <= i < p.events.len() ==> p.punched.contains_key(
            ((#[trigger] p.events[i]).universe, p.events[i].channel),
        )
}

/// A recorder's pass is consistent at any time, and finitely many channels have punched in.
pub proof fn law_recorder_is_consistent(r: PunchRecorder)
    requires
        r.wf(),
    ensures
        consistent(r@),
        r@.punched.dom().finite(),
{
    assert(r@.punched.dom() =~= r@.live.dom());
    lemma_dom(r.punched@);
}

/// The stream of a recorder, if there is one, holds the pass at any time.
pub proof fn law_stream_holds_the_pass(r: PunchRecorder)
    requires
        r.wf(),
    ensures
        r.streamed() matches Some(w) ==> w.wf() && w.written() == rec::log_bytes(r@.events),
{
}

/// A channel as one number.
spec fn code(place: Place) -> u32 {
    (place.0 * 65536 + place.1) as u32
}

/// The channel of a number.
spec fn place_of(code: u32) -> Place {
    ((code / 65536) as u16, (code % 65536) as u16)
}

proof fn lemma_code(place: Place)
    ensures
        place_of(code(place)) == place,
{
}

proof fn lemma_place(c: u32)
    ensures
        code(place_of(c)) == c,
{
}

fn encode(universe: u16, channel: u16) -> (c: u32)
    ensures
        c == code((universe, channel)),
{
    universe as u32 * 65536 + channel as u32
}

/// A map from channels that is kept by their numbers.
spec fn by_place<V>(m: Map<u32, V>) -> Map<Place, V> {
    Map::new(|p: Place| m.contains_key(code(p)), |p: Place| m[code(p)])
}

proof fn lemma_insert<V>(m: Map<u32, V>, place: Place, v: V)
    ensures
        by_place(m.insert(code(place), v)) == by_place(m).insert(place, v),
{
    assert forall|p: Place| (#[trigger] code(p)) == code(place) implies p == place by {
        lemma_code(p);
        lemma_code(place);
    }
    assert(by_place(m.insert(code(place), v)) =~= by_place(m).insert(place, v));
}

/// Records a pass over an existing take.
pub struct PunchRecorder {
    base: Vec<RecEvent>,
    /// The base take advanced to the pass clock: supplies expected values.
    base_player: ShowPlayer,
    new_events: Vec<RecEvent>,
    /// Punch-in time per channel.
    punched: BTreeMap<u32, u32>,
    /// Last recorded value per punched channel.
    last: BTreeMap<u32, u8>,
    /// Streaming crash-safety copy of the pass.
    writer: Option<RecWriter>,
    pos_ms: u32,
}

impl View for PunchRecorder {
    type V = Pass;

    closed spec fn view(&self) -> Pass {
        Pass {
            base: self.base@,
            events: self.new_events@,
            punched: by_place(self.punched@),
            live: by_place(self.last@),
            pos: self.pos_ms,
        }
    }
}

impl PunchRecorder {
    /// What was handed to the stream so far, if there is one.
    pub closed spec fn streamed(&self) -> Option<RecWriter> {
        self.writer
    }

    /// The player plays the base take, a live channel exists and has punched in, every
    /// event belongs to a punched channel, and the stream holds the pass.
    pub closed spec fn wf(&self) -> bool {
        &&& self.base_player.wf()
        &&& self.base_player.log() == self.base@
        &&& self.punched@.dom() == self.last@.dom()
        &&& forall|c: u32| #[trigger]
            self.last@.contains_key(c) ==> place_of(c).1 < DMX_UNIVERSE_SIZE
        &&& forall|i: int|
            0 <= i < self.new_events@.len() ==> self.punched@.contains_key(
                code(((#[trigger] self.new_events@[i]).universe, self.new_events@[i].channel)),
            )
        &&& self.writer matches Some(w) ==> w.wf() && w.written() == rec::log_bytes(
            self.new_events@,
        )
    }

    /// Starts a pass over `base` (empty for a fresh recording). The writer, if there is
    /// one, is a log that was just started: it receives the raw pass events as they
    /// happen.
    pub fn start(base: Vec<RecEvent>, writer: Option<RecWriter>) -> (r: PunchRecorder)
        requires
            writer matches Some(w) ==> w.wf() && w.written() == rec::header_bytes(),
        ensures
            r.wf(),
            r@ == new_pass(base@),
            r.streamed() == writer,
    {
        let mut copy: Vec<RecEvent> = Vec::new();
        copy.extend_from_slice(base.as_slice());
        assert(copy@ =~= base@);
        let r = PunchRecorder {
            base_player: ShowPlayer::new(copy),
            base,
            new_events: Vec::new(),
            punched: BTreeMap::new(),
            last: BTreeMap::new(),
            writer,
            pos_ms: 0,
        };
        proof {
            assert(r@.punched =~= Map::empty());
            assert(r@.live =~= Map::empty());
            assert(rec::log_bytes(r.new_events@) == rec::header_bytes());
        }
        r
    }

    /// Feeds one channel of input at pass time `t_ms`.
    pub fn input(&mut self, t_ms: u32, universe: u16, channel: u16, value: u8)
        requires
            old(self).wf(),
        ensures
            final(self).wf(),
            final(self)@ == after_input(old(self)@, t_ms, (universe, channel), value),
            final(self).carries_on(*old(self)),
    {
        if channel as usize >= DMX_UNIVERSE_SIZE {
            return;
        }
        let ghost place = (universe, channel);
        if t_ms > self.pos_ms {
            self.pos_ms = t_ms;
        }
        let key: u32 = encode(universe, channel);
        let live: Option<u8> = match self.last.get(&key) {
            Some(prev) => Some(*prev),
            None => None,
        };
        match live {
            Some(prev) => {
                // Already punched: record changes only.
                if prev != value {
                    assert(self.last@.dom().insert(key) =~= self.last@.dom());
                    self.record(t_ms, universe, channel, value);
                }
            },
            None => {
                // Not punched: compare against what the base take plays right now.
                self.base_player.seek(t_ms);
                let expected: u8 = match self.base_player.frame().get(universe) {
                    Some(u) => u.values()[channel as usize],
                    None => 0,
                };
                assert(expected == value_at(self.base@, t_ms, place));
                if value != expected {
                    let ghost before = self.punched@;
                    self.punched.insert(key, t_ms);
                    proof {
                        lemma_insert(before, place, t_ms);
                        lemma_code(place);
                    }
                    self.record(t_ms, universe, channel, value);
                }
            },
        }
    }

    /// The stream is there as before, holds the pass as it is now, and has lost nothing of
    /// what came out of it. Where nothing was recorded it is as it was.
    pub open spec fn carries_on(&self, before: PunchRecorder) -> bool {
        &&& self@.events.len() >= before@.events.len()
        &&& self@.events.len() == before@.events.len() ==> self.streamed() == before.streamed()
        &&& match (self.streamed(), before.streamed()) {
            (Some(now), Some(then)) => {
                &&& now.written() == rec::log_bytes(self@.events)
                &&& now.stored() == then.stored()
                &&& then.compressed().is_prefix_of(now.compressed())
            },
            (None, None) => true,
            _ => false,
        }
    }

    /// Feeds a whole received universe at pass time `t_ms`.
    pub fn input_universe(&mut self, t_ms: u32, universe: u16, data: &Universe)
        requires
            old(self).wf(),
        ensures
            final(self).wf(),
            final(self)@ == after_channels(
                old(self)@,
                t_ms,
                universe,
                data@,
                DMX_UNIVERSE_SIZE as nat,
            ),
            final(self).carries_on(*old(self)),
    {
        let mut ch: usize = 0;
        while ch < DMX_UNIVERSE_SIZE
            invariant
                ch <= DMX_UNIVERSE_SIZE,
                self.wf(),
                self@ == after_channels(old(self)@, t_ms, universe, data@, ch as nat),
                self.carries_on(*old(self)),
            decreases DMX_UNIVERSE_SIZE - ch,
        {
            self.input(t_ms, universe, ch as u16, data[ch]);
            ch = ch + 1;
        }
    }

    /// Records a value of a punched channel, in the pass and in the stream.
    fn record(&mut self, t_ms: u32, universe: u16, channel: u16, value: u8)
        requires
            channel < DMX_UNIVERSE_SIZE,
            old(self).base_player.wf(),
            old(self).base_player.log() == old(self).base@,
            old(self).punched@.dom() == old(self).last@.dom().insert(code((universe, channel))),
            forall|c: u32| #[trigger]
                old(self).last@.contains_key(c) ==> place_of(c).1 < DMX_UNIVERSE_SIZE,
            forall|i: int|
                0 <= i < old(self).new_events@.len() ==> old(self).punched@.contains_key(
                    code(
                        (
                            (#[trigger] old(self).new_events@[i]).universe,
                            old(self).new_events@[i].channel,
                        ),
                    ),
                ),
            old(self).writer matches Some(w) ==> w.wf() && w.written() == rec::log_bytes(
                old(self).new_events@,
            ),
        ensures
            final(self).wf(),
            final(self)@ == recorded(old(self)@, t_ms, (universe, channel), value),
            final(self).carries_on(*old(self)),
    {
        let ghost place = (universe, channel);
        let e = RecEvent { t_ms, universe, channel, value };
        self.new_events.push(e);
        assert(self.new_events@.drop_last() =~= old(self).new_events@);
        let key: u32 = encode(universe, channel);
        self.last.insert(key, value);
        proof {
            lemma_insert(old(self).last@, place, value);
            lemma_code(place);
            assert(self.punched@.dom() =~= self.last@.dom());
        }
        let mut writer: Option<RecWriter> = None;
        std::mem::swap(&mut self.writer, &mut writer);
        if let Some(mut w) = writer {
            let _ = w.write(e);
            assert(w.written() == rec::log_bytes(self.new_events@));
            self.writer = Some(w);
        }
        assert(self@.events =~= old(self)@.events.push(e));
        assert(self@.live =~= old(self)@.live.insert(place, value));
    }

    /// The compressed bytes of the stream that came since the last call, to be stored
    /// behind the earlier ones.
    pub fn draw_stream(&mut self) -> (bytes: Vec<u8>)
        requires
            old(self).wf(),
        ensures
            final(self).wf(),
            final(self)@ == old(self)@,
            final(self).streamed() is Some <==> old(self).streamed() is Some,
            match (final(self).streamed(), old(self).streamed()) {
                (Some(w), Some(before)) => w.stored() == before.stored() + bytes@ && w.stored()
                    == w.compressed() && w.compressed() == before.compressed() && w.written()
                    == before.written(),
                _ => bytes@.len() == 0,
            },
    {
        let mut writer: Option<RecWriter> = None;
        std::mem::swap(&mut self.writer, &mut writer);
        match writer {
            Some(mut w) => {
                let bytes = w.draw();
                self.writer = Some(w);
                bytes
            },
            None => Vec::new(),
        }
    }

    /// Channels punched in so far.
    pub fn punched_count(&self) -> (n: usize)
        ensures
            n == self@.punched.dom().len(),
    {
        proof {
            lemma_dom(self.punched@);
        }
        self.punched.len()
    }

    /// Events captured this pass.
    pub fn event_count(&self) -> (n: usize)
        ensures
            n == self@.events.len(),
    {
        self.new_events.len()
    }

    /// The merged monitor state at pass time `t_ms`: the base take playing, with punched
    /// channels overridden by their live values.
    pub fn monitor_frame(&mut self, t_ms: u32) -> (frame: MaskedFrame)
        requires
            old(self).wf(),
        ensures
            final(self).wf(),
            final(self)@ == old(self)@,
            final(self).streamed() == old(self).streamed(),
            frame@ == overlaid(play::frame_at(old(self)@.base, t_ms), old(self)@.live),
    {
        self.base_player.seek(t_ms);
        let mut frame = self.base_player.frame().clone();
        let ghost base = frame@;
        let keys = live_keys(&self.last);
        let mut n: usize = 0;
        proof {
            play::lemma_frame_is_full(self.base@, t_ms);
            assert(by_place(self.last@.restrict(keys@.take(0).to_set())) =~= Map::empty());
            lemma_overlay_nothing(base);
        }
        while n < keys.len()
            invariant
                n <= keys.len(),
                keys@.no_duplicates(),
                keys@.to_set() == self.last@.dom(),
                forall|c: u32| #[trigger]
                    self.last@.contains_key(c) ==> place_of(c).1 < DMX_UNIVERSE_SIZE,
                play::full(base),
                frame@ == overlaid(
                    base,
                    by_place(self.last@.restrict(keys@.take(n as int).to_set())),
                ),
            decreases keys.len() - n,
        {
            let key: u32 = keys[n];
            assert(keys@.to_set().contains(key));
            let universe: u16 = (key / 65536) as u16;
            let channel: u16 = (key % 65536) as u16;
            if let Some(value) = self.last.get(&key) {
                frame.set(universe, channel, *value);
            }
            proof {
                let place = place_of(key);
                let done = self.last@.restrict(keys@.take(n as int).to_set());
                let more = self.last@.restrict(keys@.take(n + 1).to_set());
                let (seen, next) = (keys@.take(n as int), keys@.take(n + 1));
                assert(next =~= seen.push(key));
                assert forall|c: u32| next.to_set().contains(c) <==> seen.to_set().contains(c) || c
                    == key by {
                    if seen.contains(c) {
                        let i = choose|i: int| 0 <= i < seen.len() && seen[i] == c;
                        assert(next[i] == c);
                    }
                    assert(next[n as int] == key);
                }
                assert(more =~= done.insert(key, self.last@[key]));
                lemma_place(key);
                lemma_insert(done, place, self.last@[key]);
                lemma_overlay_next(base, by_place(done), place, self.last@[key]);
            }
            n = n + 1;
        }
        proof {
            assert(keys@.take(n as int) =~= keys@);
            assert(self.last@.restrict(keys@.to_set()) =~= self.last@);
        }
        frame
    }

    /// Ends the pass and composes the merged take, in time order: per punched channel,
    /// base events inside `[punch_time, pass_end)` give way to the pass; the base resumes
    /// at the pass end. Comes with the last bytes of the stream: what was stored of it reads
    /// back as the pass.
    pub fn finish(self) -> (r: Result<(Vec<RecEvent>, Vec<u8>), std::io::Error>)
        requires
            self.wf(),
        ensures
            r is Ok,
            r matches Ok((take, bytes)) ==> {
                &&& take@ == merged_take(self@)
                &&& match self.streamed() {
                    Some(w) => {
                        &&& w.compressed().is_prefix_of(w.stored() + bytes@)
                        &&& rec::gunzipped(w.stored() + bytes@, rec::HEADER_LEN as nat)
                            == rec::unpacked(
                            rec::log_bytes(self@.events),
                            rec::HEADER_LEN as nat,
                            rec::StreamEnd::Complete,
                        )
                        &&& rec::parsed(
                            rec::gunzipped(w.stored() + bytes@, rec::HEADER_LEN as nat),
                        ) == Ok::<Seq<RecEvent>, rec::RecError>(self@.events)
                    },
                    None => bytes@.len() == 0,
                }
            },
    {
        let ghost p = self@;
        let PunchRecorder {
            base,
            base_player: _,
            new_events,
            punched,
            last: _,
            writer,
            pos_ms,
        } = self;
        let bytes: Vec<u8> = match writer {
            Some(w) => match w.finish() {
                Ok(bytes) => bytes,
                Err(e) => {
                    return Err(e);
                },
            },
            None => Vec::new(),
        };
        let ghost keep = |e: RecEvent| kept(p, e);
        let mut all: Vec<RecEvent> = Vec::new();
        let mut i: usize = 0;
        proof {
            reveal(Seq::filter);
            assert(all@ =~= p.base.take(0).filter(keep));
        }
        while i < base.len()
            invariant
                i <= base.len(),
                p.base == base@,
                p.punched == by_place(punched@),
                p.pos == pos_ms,
                keep == (|e: RecEvent| kept(p, e)),
                all@ == p.base.take(i as int).filter(keep),
            decreases base.len() - i,
        {
            let e = base[i];
            let key: u32 = encode(e.universe, e.channel);
            let keeps = match punched.get(&key) {
                Some(t_in) => e.t_ms < *t_in || e.t_ms >= pos_ms,
                None => true,
            };
            proof {
                reveal(Seq::filter);
                assert(keeps == kept(p, e));
                assert(p.base.take(i + 1).drop_last() =~= p.base.take(i as int));
                assert(p.base.take(i + 1).last() == e);
            }
            if keeps {
                all.push(e);
            }
            i = i + 1;
        }
        assert(p.base.take(i as int) =~= p.base);
        let mut k: usize = 0;
        let ghost head = all@;
        assert(all@ =~= head + p.events.take(0));
        while k < new_events.len()
            invariant
                k <= new_events.len(),
                p.events == new_events@,
                all@ == head + p.events.take(k as int),
            decreases new_events.len() - k,
        {
            all.push(new_events[k]);
            k = k + 1;
            assert(all@ =~= head + p.events.take(k as int));
        }
        assert(all@ =~= parts(p));
        let take = sort_by_time(&all);
        Ok((take, bytes))
    }
}

/// The events in time order, ties in their order.
fn sort_by_time(events: &Vec<RecEvent>) -> (out: Vec<RecEvent>)
    ensures
        out@ == by_time(events@),
{
    let mut keys: Vec<u64> = Vec::new();
    let mut i: usize = 0;
    while i < events.len()
        invariant
            i <= events.len(),
            keys@ == times(events@).take(i as int),
        decreases events.len() - i,
    {
        keys.push(events[i].t_ms as u64);
        i = i + 1;
        assert(keys@ =~= times(events@).take(i as int));
    }
    assert(keys@ =~= times(events@));
    let sorted = order_by_key(&keys);
    let mut out: Vec<RecEvent> = Vec::new();
    let mut k: usize = 0;
    while k < sorted.len()
        invariant
            k <= sorted.len(),
            sorted.len() == events.len(),
            keys@ == times(events@),
            forall|j: int|
                0 <= j < sorted.len() ==> #[trigger] sorted@[j] == order::stable_order(keys@)[j]
                    && sorted@[j] < events.len(),
            out@ == by_time(events@).take(k as int),
        decreases sorted.len() - k,
    {
        out.push(events[sorted[k]]);
        k = k + 1;
        assert(out@ =~= by_time(events@).take(k as int));
    }
    assert(out@ =~= by_time(events@));
    out
}

/// The numbers of the live channels.
fn live_keys(last: &BTreeMap<u32, u8>) -> (keys: Vec<u32>)
    ensures
        keys@.no_duplicates(),
        keys@.to_set() == last@.dom(),
{
    let mut keys: Vec<u32> = Vec::new();
    for k in it: last.keys()
        invariant
            it.seq().unref().no_duplicates(),
            it.seq().unref().to_set() == last@.dom(),
            keys@ == it.seq().unref().take(it.index()),
            it.index() == it.seq().len() ==> keys@ == it.seq().unref(),
    {
        keys.push(*k);
    }
    keys
}

proof fn lemma_dom<V>(m: Map<u32, V>)
    requires
        m.dom().finite(),
    ensures
        by_place(m).dom().finite(),
        by_place(m).dom().len() == m.dom().len(),
{
    let f = |p: Place| code(p);
    let places = by_place(m).dom();
    let back = |c: u32| place_of(c);
    assert(places =~= m.dom().map(back)) by {
        assert forall|p: Place| places.contains(p) <==> m.dom().map(back).contains(p) by {
            if places.contains(p) {
                lemma_code(p);
                assert(back(code(p)) == p);
            }
            if m.dom().map(back).contains(p) {
                let c = choose|c: u32| m.dom().contains(c) && back(c) == p;
                lemma_place(c);
            }
        }
    }
    assert forall|a: u32, b: u32| #[trigger] back(a) == #[trigger] back(b) implies a == b by {
        lemma_place(a);
        lemma_place(b);
    }
    vstd::set_lib::lemma_map_size(m.dom(), places, back);
}

proof fn lemma_overlay_nothing(frame: FrameLevels)
    requires
        play::full(frame),
    ensures
        overlaid(frame, Map::empty()) == frame,
{
    assert forall|u: u16| frame.contains_key(u) implies overlaid(frame, Map::empty())[u]
        =~= frame[u] by {}
    assert(overlaid(frame, Map::empty()) =~= frame);
}

proof fn lemma_overlay_next(frame: FrameLevels, live: Map<Place, u8>, place: Place, value: u8)
    requires
        play::full(frame),
        place.1 < DMX_UNIVERSE_SIZE,
    ensures
        play::with_channel(overlaid(frame, live), place.0, place.1, value) == overlaid(
            frame,
            live.insert(place, value),
        ),
{
    let over = overlaid(frame, live);
    let next = live.insert(place, value);
    let left = play::with_channel(over, place.0, place.1, value);
    let right = overlaid(frame, next);
    assert forall|u: u16| left.contains_key(u) <==> right.contains_key(u) by {
        if right.contains_key(u) && !frame.contains_key(u) {
            let c = choose|c: u16| next.contains_key((u, c));
            if (u, c) != place {
                assert(live.contains_key((u, c)));
            }
        }
        if left.contains_key(u) && u != place.0 && !frame.contains_key(u) {
            let c = choose|c: u16| live.contains_key((u, c));
            assert(next.contains_key((u, c)));
        }
        if u == place.0 {
            assert(next.contains_key((u, place.1)));
        }
    }
    assert forall|u: u16| left.contains_key(u) implies left[u] =~= right[u] by {
        if u == place.0 {
            let before = play::levels_of(over, u);
            assert(before.len() == DMX_UNIVERSE_SIZE);
            assert forall|c: int| 0 <= c < DMX_UNIVERSE_SIZE implies left[u][c] == right[u][c] by {
                if !over.contains_key(u) {
                    assert(!live.contains_key((u, c as u16)));
                }
            }
        }
    }
    assert(left =~= right);
}

/// A recorder carries on from itself. One that carries on from another has lost none of
/// its events; its stream, if it has one, holds all of them, had nothing taken out, and
/// only went on from where it was.
pub proof fn law_recorder_carries_on(now: PunchRecorder, before: PunchRecorder)
    requires
        before.wf(),
    ensures
        before.carries_on(before),
        now.carries_on(before) ==> {
            &&& now@.events.len() >= before@.events.len()
            &&& now.streamed() is Some <==> before.streamed() is Some
            &&& now.streamed() matches Some(w) ==> w.written() == rec::log_bytes(now@.events)
                && w.stored() == before.streamed()->0.stored()
                && before.streamed()->0.compressed().is_prefix_of(w.compressed())
        },
{
}

} // verus!
