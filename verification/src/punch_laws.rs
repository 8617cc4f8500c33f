//! What holds of every punch-in pass.

use vstd::prelude::*;

use crate::dmx::DMX_UNIVERSE_SIZE;
use crate::order;
use crate::play;
use crate::punch;
use crate::punch::{Pass, Place, PunchRecorder};
use crate::rec;
use crate::rec::RecEvent;

verus! {

/// Input keeps a pass consistent. A channel that has punched in stays so, from the same
/// time, until the pass ends.
pub proof fn law_punches_stay(p: Pass, t_ms: u32, place: Place, value: u8)
    requires
        punch::consistent(p),
    ensures
        punch::consistent(punch::after_input(p, t_ms, place, value)),
        p.punched.submap_of(punch::after_input(p, t_ms, place, value).punched),
        punch::after_input(p, t_ms, place, value).base == p.base,
{
    let after = punch::after_input(p, t_ms, place, value);
    assert(after.punched.dom() =~= after.live.dom());
    assert forall|i: int| 0 <= i < after.events.len() implies after.punched.contains_key(
        ((#[trigger] after.events[i]).universe, after.events[i].channel),
    ) by {
        if i < p.events.len() {
            assert(after.events[i] == p.events[i]);
        }
    }
}

/// Input that is what the take plays never punches in: nothing but the clock changes.
pub proof fn law_matching_input_never_punches(p: Pass, t_ms: u32, place: Place)
    requires
        !p.live.contains_key(place),
    ensures
        ({
            let after = punch::after_input(
                p,
                t_ms,
                place,
                punch::value_at(p.base, t_ms, place),
            );
            after.events == p.events && after.punched == p.punched && after.live == p.live
        }),
{
}

/// A value that was sent before and is sent again adds no event.
pub proof fn law_resend_adds_nothing(p: Pass, t_ms: u32, place: Place, value: u8)
    requires
        p.live.contains_key(place),
        p.live[place] == value,
    ensures
        punch::after_input(p, t_ms, place, value).events == p.events,
{
}

/// The merged take is in time order.
pub proof fn law_take_is_in_time_order(p: Pass)
    ensures
        rec::in_time_order(punch::merged_take(p)),
{
    let all = punch::parts(p);
    let keys = punch::times(all);
    let take = punch::merged_take(p);
    order::law_stable_order(keys);
    assert forall|i: int, j: int| 0 <= i <= j < take.len() implies take[i].t_ms <= take[j].t_ms by {
        let a = order::stable_order(keys)[i];
        let b = order::stable_order(keys)[j];
        assert(keys[a] == all[a].t_ms as u64 && keys[b] == all[b].t_ms as u64);
    }
}

/// The merged take holds the surviving base events and the pass, and nothing else.
pub proof fn law_take_holds(p: Pass, e: RecEvent)
    ensures
        punch::merged_take(p).contains(e) <==> (p.base.contains(e) && punch::kept(p, e))
            || p.events.contains(e),
        punch::merged_take(p).len() == p.base.filter(|e: RecEvent| punch::kept(p, e)).len()
            + p.events.len(),
{
    broadcast use vstd::seq_lib::group_filter_ensures;

    let all = punch::parts(p);
    let keys = punch::times(all);
    let take = punch::merged_take(p);
    let ord = order::stable_order(keys);
    let keep = |e: RecEvent| punch::kept(p, e);
    let low = p.base.filter(keep);
    order::law_stable_order(keys);
    if take.contains(e) {
        let i = choose|i: int| 0 <= i < take.len() && take[i] == e;
        let k = ord[i];
        assert(all[k] == e);
        if k < low.len() {
            assert(low[k] == e);
            assert(keep(low[k]));
            lemma_filter_source(p.base, keep, k);
        } else {
            assert(p.events[k - low.len()] == e);
        }
    }
    if p.base.contains(e) && punch::kept(p, e) {
        let i = choose|i: int| 0 <= i < p.base.len() && p.base[i] == e;
        assert(keep(p.base[i]));
        assert(low.contains(e));
        let k = choose|k: int| 0 <= k < low.len() && low[k] == e;
        assert(all[k] == e);
        lemma_taken(all, k);
    }
    if p.events.contains(e) {
        let i = choose|i: int| 0 <= i < p.events.len() && p.events[i] == e;
        assert(all[low.len() + i] == e);
        lemma_taken(all, low.len() + i);
    }
}

proof fn lemma_taken(all: Seq<RecEvent>, k: int)
    requires
        0 <= k < all.len(),
    ensures
        punch::by_time(all).contains(all[k]),
{
    let ord = order::stable_order(punch::times(all));
    order::law_stable_order(punch::times(all));
    assert(ord.contains(k));
    let i = choose|i: int| 0 <= i < ord.len() && ord[i] == k;
    assert(punch::by_time(all)[i] == all[k]);
}

proof fn lemma_filter_source<T>(s: Seq<T>, q: spec_fn(T) -> bool, k: int)
    requires
        0 <= k < s.filter(q).len(),
    ensures
        s.contains(s.filter(q)[k]),
    decreases s.len(),
{
    reveal(Seq::filter);
    if s.len() > 0 {
        let low = s.drop_last();
        if k < low.filter(q).len() {
            lemma_filter_source(low, q, k);
            let x = low.filter(q)[k];
            let i = choose|i: int| 0 <= i < low.len() && low[i] == x;
            assert(s[i] == x);
        } else {
            assert(s[s.len() - 1] == s.filter(q)[k]);
        }
    }
}

/// The values at places, filtered: the places whose value passes, each with its value.
proof fn lemma_filter_places<T>(s: Seq<T>, places: Seq<int>, q: spec_fn(T) -> bool)
    ensures
        places.map_values(|k: int| s[k]).filter(q) == places.filter(
            |k: int| q(s[k]),
        ).map_values(|k: int| s[k]),
    decreases places.len(),
{
    reveal(Seq::filter);
    let f = |k: int| s[k];
    let pred = |k: int| q(s[k]);
    if places.len() > 0 {
        let low = places.drop_last();
        lemma_filter_places(s, low, q);
        assert(places.map_values(f).drop_last() =~= low.map_values(f));
        assert(places.map_values(f).last() == s[places.last()]);
        assert(places.map_values(f).filter(q) =~= places.filter(pred).map_values(f));
    } else {
        assert(places.map_values(f).filter(q) =~= places.filter(pred).map_values(f));
    }
}

/// A filtered sequence keeps the order: its items come from rising places.
proof fn lemma_filter_order(places: Seq<int>, pred: spec_fn(int) -> bool)
    requires
        forall|i: int, j: int|
            0 <= i < j < places.len() && pred(places[i]) && pred(places[j]) ==> places[i]
                < places[j],
    ensures
        forall|i: int, j: int|
            0 <= i < j < places.filter(pred).len() ==> places.filter(pred)[i] < places.filter(
                pred,
            )[j],
        forall|k: int| #[trigger]
            places.filter(pred).contains(k) <==> places.contains(k) && pred(k),
    decreases places.len(),
{
    reveal(Seq::filter);
    let all = places.filter(pred);
    if places.len() > 0 {
        let low = places.drop_last();
        let last = places.last();
        let part = low.filter(pred);
        assert forall|i: int, j: int|
            0 <= i < j < low.len() && pred(low[i]) && pred(low[j]) implies low[i] < low[j] by {
            assert(places[i] < places[j]);
        }
        lemma_filter_order(low, pred);
        assert forall|k: int| #[trigger] all.contains(k) <==> places.contains(k) && pred(k) by {
            if all.contains(k) {
                let i = choose|i: int| 0 <= i < all.len() && all[i] == k;
                if i < part.len() {
                    assert(part[i] == k);
                    assert(part.contains(k));
                    let n = choose|n: int| 0 <= n < low.len() && low[n] == k;
                    assert(places[n] == k);
                } else {
                    assert(places[places.len() - 1] == k);
                }
            }
            if places.contains(k) && pred(k) {
                let n = choose|n: int| 0 <= n < places.len() && places[n] == k;
                if n < low.len() {
                    assert(low[n] == k);
                    assert(part.contains(k));
                    let i = choose|i: int| 0 <= i < part.len() && part[i] == k;
                    assert(all[i] == k);
                } else {
                    assert(all[all.len() - 1] == k);
                }
            }
        }
        assert forall|i: int, j: int| 0 <= i < j < all.len() implies all[i] < all[j] by {
            assert(all[i] == part[i]);
            if j < part.len() {
                assert(all[j] == part[j]);
            } else {
                assert(part.contains(part[i]));
                let n = choose|n: int| 0 <= n < low.len() && low[n] == part[i];
                assert(places[n] < places[places.len() - 1]);
            }
        }
    }
}

/// Two rising sequences of the same numbers are the same.
proof fn lemma_rising_unique(a: Seq<int>, b: Seq<int>)
    requires
        forall|i: int, j: int| 0 <= i < j < a.len() ==> a[i] < a[j],
        forall|i: int, j: int| 0 <= i < j < b.len() ==> b[i] < b[j],
        forall|k: int| a.contains(k) <==> b.contains(k),
    ensures
        a == b,
    decreases a.len(),
{
    if a.len() == 0 {
        if b.len() > 0 {
            assert(b.contains(b[0]));
            assert(a.contains(b[0]));
        }
        assert(a =~= b);
    } else {
        assert(a.contains(a.last()));
        assert(b.contains(a.last()));
        let top = b.last();
        assert(b.contains(top));
        assert(a.contains(top));
        let i = choose|i: int| 0 <= i < b.len() && b[i] == a.last();
        let j = choose|j: int| 0 <= j < a.len() && a[j] == top;
        assert(a.last() == top) by {
            if i < b.len() - 1 {
                assert(b[i] < b[b.len() - 1]);
                if j < a.len() - 1 {
                    assert(a[j] < a[a.len() - 1]);
                }
            }
        }
        let (x, y) = (a.drop_last(), b.drop_last());
        assert forall|k: int| x.contains(k) <==> y.contains(k) by {
            if x.contains(k) {
                let n = choose|n: int| 0 <= n < x.len() && x[n] == k;
                assert(a[n] == k && a[n] < a[a.len() - 1]);
                assert(a.contains(k));
                let m = choose|m: int| 0 <= m < b.len() && b[m] == k;
                assert(y[m] == k);
            }
            if y.contains(k) {
                let n = choose|n: int| 0 <= n < y.len() && y[n] == k;
                assert(b[n] == k && b[n] < b[b.len() - 1]);
                assert(b.contains(k));
                let m = choose|m: int| 0 <= m < a.len() && a[m] == k;
                assert(x[m] == k);
            }
        }
        lemma_rising_unique(x, y);
        assert(a =~= x.push(a.last()));
        assert(b =~= y.push(b.last()));
    }
}

/// Sorting by time does not touch events that are in time order already.
proof fn lemma_sort_keeps_order(all: Seq<RecEvent>, q: spec_fn(RecEvent) -> bool)
    requires
        forall|i: int, j: int|
            0 <= i < j < all.len() && q(all[i]) && q(all[j]) ==> all[i].t_ms <= all[j].t_ms,
    ensures
        punch::by_time(all).filter(q) == all.filter(q),
{
    let keys = punch::times(all);
    let ord = order::stable_order(keys);
    let own = order::positions(0, all.len() as int);
    let pred = |k: int| q(all[k]);
    let f = |k: int| all[k];
    order::law_stable_order(keys);
    assert forall|i: int, j: int|
        0 <= i < j < ord.len() && pred(ord[i]) && pred(ord[j]) implies ord[i] < ord[j] by {
        let a = ord[i];
        let b = ord[j];
        assert(keys[a] == all[a].t_ms as u64 && keys[b] == all[b].t_ms as u64);
        if b < a {
            assert(all[b].t_ms <= all[a].t_ms);
        }
    }
    lemma_filter_order(ord, pred);
    lemma_filter_order(own, pred);
    assert forall|k: int| ord.filter(pred).contains(k) <==> own.filter(pred).contains(k) by {
        if ord.contains(k) {
            let i = choose|i: int| 0 <= i < ord.len() && ord[i] == k;
            assert(0 <= k < all.len());
            assert(own[k] == k);
        }
        if own.contains(k) {
            assert(ord.contains(k));
        }
    }
    lemma_rising_unique(ord.filter(pred), own.filter(pred));
    lemma_filter_places(all, ord, q);
    lemma_filter_places(all, own, q);
    assert(ord.map_values(f) =~= punch::by_time(all));
    assert(own.map_values(f) =~= all);
}

proof fn lemma_filter_kept<T>(s: Seq<T>, keep: spec_fn(T) -> bool, q: spec_fn(T) -> bool)
    requires
        forall|x: T| #[trigger] q(x) ==> keep(x),
    ensures
        s.filter(keep).filter(q) == s.filter(q),
    decreases s.len(),
{
    reveal(Seq::filter);
    if s.len() > 0 {
        let low = s.drop_last();
        lemma_filter_kept(low, keep, q);
        if keep(s.last()) {
            assert(s.filter(keep).drop_last() =~= low.filter(keep));
        }
    }
}

proof fn lemma_filter_none<T>(s: Seq<T>, q: spec_fn(T) -> bool)
    requires
        forall|i: int| 0 <= i < s.len() ==> !q(#[trigger] s[i]),
    ensures
        s.filter(q).len() == 0,
    decreases s.len(),
{
    reveal(Seq::filter);
    if s.len() > 0 {
        let low = s.drop_last();
        assert forall|i: int| 0 <= i < low.len() implies !q(#[trigger] low[i]) by {
            assert(!q(s[i]));
        }
        lemma_filter_none(low, q);
        assert(!q(s[s.len() - 1]));
    }
}

/// A filtered part of a time-ordered log comes in time order.
proof fn lemma_filter_in_order(s: Seq<RecEvent>, keep: spec_fn(RecEvent) -> bool)
    requires
        rec::in_time_order(s),
    ensures
        rec::in_time_order(s.filter(keep)),
    decreases s.len(),
{
    reveal(Seq::filter);
    if s.len() > 0 {
        let low = s.drop_last();
        assert(rec::in_time_order(low)) by {
            assert forall|i: int, j: int| 0 <= i <= j < low.len() implies low[i].t_ms
                <= low[j].t_ms by {
                assert(s[i].t_ms <= s[j].t_ms);
            }
        }
        lemma_filter_in_order(low, keep);
        let part = low.filter(keep);
        let all = s.filter(keep);
        assert forall|i: int, j: int| 0 <= i <= j < all.len() implies all[i].t_ms
            <= all[j].t_ms by {
            if j < part.len() {
                assert(all[i] == part[i] && all[j] == part[j]);
            } else if i < part.len() {
                assert(all[i] == part[i]);
                lemma_filter_source(low, keep, i);
                let n = choose|n: int| 0 <= n < low.len() && low[n] == part[i];
                assert(s[n].t_ms <= s[s.len() - 1].t_ms);
            }
        }
    }
}

/// A channel that did not punch in keeps its base events verbatim, in their order.
pub proof fn law_untouched_channel_is_kept(p: Pass, place: Place)
    requires
        punch::consistent(p),
        rec::in_time_order(p.base),
        !p.punched.contains_key(place),
    ensures
        punch::merged_take(p).filter(|e: RecEvent| (e.universe, e.channel) == place)
            == p.base.filter(|e: RecEvent| (e.universe, e.channel) == place),
{
    let q = |e: RecEvent| (e.universe, e.channel) == place;
    let keep = |e: RecEvent| punch::kept(p, e);
    let low = p.base.filter(keep);
    let all = punch::parts(p);
    lemma_filter_in_order(p.base, keep);
    assert forall|i: int| 0 <= i < p.events.len() implies !q(#[trigger] p.events[i]) by {
        assert(p.punched.contains_key((p.events[i].universe, p.events[i].channel)));
    }
    assert forall|i: int, j: int|
        0 <= i < j < all.len() && q(all[i]) && q(all[j]) implies all[i].t_ms <= all[j].t_ms by {
        if j >= low.len() {
            assert(!q(p.events[j - low.len()]));
        } else {
            assert(low[i].t_ms <= low[j].t_ms);
        }
    }
    lemma_sort_keeps_order(all, q);
    Seq::filter_distributes_over_add(low, p.events, q);
    lemma_filter_none(p.events, q);
    lemma_filter_kept(p.base, keep, q);
    assert(all.filter(q) =~= p.base.filter(q));
}

/// Inside the pass, a channel that punched in plays what was captured and nothing of the
/// base: no base-only event of it lies between its punch and the pass end.
pub proof fn law_punched_span_is_the_pass(p: Pass, e: RecEvent)
    requires
        punch::merged_take(p).contains(e),
        p.punched.contains_key((e.universe, e.channel)),
        p.punched[(e.universe, e.channel)] <= e.t_ms < p.pos,
    ensures
        p.events.contains(e),
{
    law_take_holds(p, e);
}

/// Events that are in time order already stay where they are.
proof fn lemma_sorted_stays(events: Seq<RecEvent>)
    requires
        rec::in_time_order(events),
    ensures
        punch::by_time(events) == events,
{
    let keys = punch::times(events);
    let ord = order::stable_order(keys);
    order::law_stable_order(keys);
    assert forall|i: int, j: int| 0 <= i < j < ord.len() implies ord[i] < ord[j] by {
        let a = ord[i];
        let b = ord[j];
        assert(keys[a] == events[a].t_ms as u64 && keys[b] == events[b].t_ms as u64);
        if b < a {
            assert(events[b].t_ms <= events[a].t_ms);
        }
    }
    assert forall|i: int| 0 <= i < ord.len() implies #[trigger] ord[i] == i by {
        lemma_rising_from_below(ord, i);
        lemma_rising_from_above(ord, i);
    }
    assert(punch::by_time(events) =~= events);
}

proof fn lemma_rising_from_below(ord: Seq<int>, i: int)
    requires
        0 <= i < ord.len(),
        forall|k: int| 0 <= k < ord.len() ==> 0 <= #[trigger] ord[k] < ord.len(),
        forall|a: int, b: int| 0 <= a < b < ord.len() ==> ord[a] < ord[b],
    ensures
        ord[i] >= i,
    decreases i,
{
    if i > 0 {
        lemma_rising_from_below(ord, i - 1);
        assert(ord[i - 1] < ord[i]);
    }
}

proof fn lemma_rising_from_above(ord: Seq<int>, i: int)
    requires
        0 <= i < ord.len(),
        forall|k: int| 0 <= k < ord.len() ==> 0 <= #[trigger] ord[k] < ord.len(),
        forall|a: int, b: int| 0 <= a < b < ord.len() ==> ord[a] < ord[b],
    ensures
        ord[i] <= i,
    decreases ord.len() - i,
{
    if i < ord.len() - 1 {
        lemma_rising_from_above(ord, i + 1);
        assert(ord[i] < ord[i + 1]);
    }
}

/// A pass in which nothing punched in leaves the take as it was.
pub proof fn law_quiet_pass_keeps_the_take(p: Pass)
    requires
        rec::in_time_order(p.base),
        p.punched == Map::<Place, u32>::empty(),
        p.events.len() == 0,
    ensures
        punch::merged_take(p) == p.base,
{
    broadcast use vstd::seq_lib::group_filter_ensures;

    let keep = |e: RecEvent| punch::kept(p, e);
    order::lemma_filter_all(p.base, keep);
    assert(punch::parts(p) =~= p.base);
    lemma_sorted_stays(p.base);
}

/// Whether the events of a pass came in time order, none later than its clock.
pub open spec fn on_time(p: Pass) -> bool {
    &&& rec::in_time_order(p.events)
    &&& forall|i: int| 0 <= i < p.events.len() ==> (#[trigger] p.events[i]).t_ms <= p.pos
}

/// Input whose clock does not run backwards is captured in time order.
pub proof fn law_capture_is_in_time_order(p: Pass, t_ms: u32, place: Place, value: u8)
    requires
        on_time(p),
        p.pos <= t_ms,
    ensures
        on_time(punch::after_input(p, t_ms, place, value)),
{
    let after = punch::after_input(p, t_ms, place, value);
    assert forall|i: int| 0 <= i < after.events.len() implies (
    #[trigger] after.events[i]).t_ms <= after.pos by {
        if i < p.events.len() {
            assert(after.events[i] == p.events[i]);
        }
    }
    assert forall|i: int, j: int| 0 <= i <= j < after.events.len() implies after.events[i].t_ms
        <= after.events[j].t_ms by {
        if j < p.events.len() {
            assert(after.events[i] == p.events[i] && after.events[j] == p.events[j]);
        } else if i < p.events.len() {
            assert(after.events[i] == p.events[i]);
        }
    }
}

/// A fresh recording is exactly what was captured.
pub proof fn law_fresh_take_is_the_pass(p: Pass)
    requires
        p.base.len() == 0,
        on_time(p),
    ensures
        punch::merged_take(p) == p.events,
{
    reveal(Seq::filter);
    assert(punch::parts(p) =~= p.events);
    lemma_sorted_stays(p.events);
}

/// A fresh take is what its stream reads back as: [`PunchRecorder::finish`] gives the one,
/// and ends the other as this stream of what was written.
pub proof fn law_fresh_take_is_streamed(r: PunchRecorder)
    requires
        r.wf(),
        r@.base.len() == 0,
        on_time(r@),
    ensures
        r.streamed() matches Some(w) ==> rec::parsed(
            rec::unpacked(w.written(), rec::HEADER_LEN as nat, rec::StreamEnd::Complete),
        ) == Ok::<Seq<RecEvent>, rec::RecError>(punch::merged_take(r@)),
{
    punch::law_stream_holds_the_pass(r);
    law_fresh_take_is_the_pass(r@);
    rec::law_log_reads_back(r@.events);
}

/// The value that the last event of a channel up to a moment gave it.
pub open spec fn last_until(events: Seq<RecEvent>, t_ms: u32, place: Place) -> Option<u8>
    decreases events.len(),
{
    if events.len() == 0 {
        None
    } else {
        let e = events.last();
        if (e.universe, e.channel) == place && e.t_ms <= t_ms {
            Some(e.value)
        } else {
            last_until(events.drop_last(), t_ms, place)
        }
    }
}

/// A pass after those inputs, one behind the other.
pub open spec fn after_inputs(p: Pass, fed: Seq<RecEvent>) -> Pass
    decreases fed.len(),
{
    if fed.len() == 0 {
        p
    } else {
        let e = fed.last();
        punch::after_input(
            after_inputs(p, fed.drop_last()),
            e.t_ms,
            (e.universe, e.channel),
            e.value,
        )
    }
}

/// Whether an event lies on a channel, up to a moment.
spec fn heard_by(t_ms: u32, place: Place) -> spec_fn(RecEvent) -> bool {
    |e: RecEvent| (e.universe, e.channel) == place && e.t_ms <= t_ms
}

/// What a time-ordered take plays is what its last event up to the moment said.
proof fn lemma_plays(take: Seq<RecEvent>, t_ms: u32, place: Place)
    requires
        rec::in_time_order(take),
        place.1 < DMX_UNIVERSE_SIZE,
    ensures
        punch::value_at(take, t_ms, place) == last_until(take, t_ms, place).unwrap_or(0),
{
    let n = play::reached_from(take, t_ms, 0);
    play::law_channel_at(take, t_ms, place.0, place.1 as int);
    play::law_reached(take, t_ms);
    play::lemma_reached_bound(take, t_ms, 0);
    lemma_reached_value(take, t_ms, place, take.len());
    assert(take.take(take.len() as int) =~= take);
    if !play::touches(take, take.len(), place.0, place.1 as int) {
        lemma_untouched(take, n, place);
    }
}

proof fn lemma_untouched(take: Seq<RecEvent>, n: nat, place: Place)
    requires
        n <= take.len(),
        !play::touches(take, take.len(), place.0, place.1 as int),
    ensures
        play::last_value(take, n, place.0, place.1 as int) == 0,
    decreases n,
{
    if n > 0 {
        lemma_untouched(take, (n - 1) as nat, place);
        assert(take[n - 1].universe != place.0 || take[n - 1].channel != place.1);
    }
}

proof fn lemma_reached_value(take: Seq<RecEvent>, t_ms: u32, place: Place, m: nat)
    requires
        m <= take.len(),
        play::reached_from(take, t_ms, 0) <= take.len(),
        forall|i: int|
            0 <= i < take.len() ==> ((#[trigger] take[i]).t_ms <= t_ms <==> i
                < play::reached_from(take, t_ms, 0)),
    ensures
        last_until(take.take(m as int), t_ms, place).unwrap_or(0) == play::last_value(
            take,
            if m <= play::reached_from(take, t_ms, 0) {
                m
            } else {
                play::reached_from(take, t_ms, 0)
            },
            place.0,
            place.1 as int,
        ),
    decreases m,
{
    if m > 0 {
        let part = take.take(m as int);
        lemma_reached_value(take, t_ms, place, (m - 1) as nat);
        assert(part.drop_last() =~= take.take(m - 1));
        assert(part.last() == take[m - 1]);
    }
}

/// Only the events of the channel up to the moment matter.
proof fn lemma_filtered_value(s: Seq<RecEvent>, t_ms: u32, place: Place)
    ensures
        last_until(s.filter(heard_by(t_ms, place)), t_ms, place) == last_until(s, t_ms, place),
    decreases s.len(),
{
    reveal(Seq::filter);
    let q = heard_by(t_ms, place);
    if s.len() > 0 {
        let low = s.drop_last();
        lemma_filtered_value(low, t_ms, place);
        if q(s.last()) {
            assert(s.filter(q) == low.filter(q).push(s.last()));
            assert(s.filter(q).last() == s.last());
        } else {
            assert(s.filter(q) == low.filter(q));
        }
    }
}

proof fn lemma_joined_value(a: Seq<RecEvent>, b: Seq<RecEvent>, t_ms: u32, place: Place)
    ensures
        last_until(a + b, t_ms, place) == (match last_until(b, t_ms, place) {
            Some(v) => Some(v),
            None => last_until(a, t_ms, place),
        }),
    decreases b.len(),
{
    if b.len() > 0 {
        lemma_joined_value(a, b.drop_last(), t_ms, place);
        assert((a + b).drop_last() =~= a + b.drop_last());
        assert((a + b).last() == b.last());
    } else {
        assert(a + b =~= a);
    }
}

/// What a pass over `base` keeps of the inputs on a channel: it has no event of a channel
/// that did not punch in, and from the punch on its events say what was fed last.
spec fn keeps_up(p: Pass, fed: Seq<RecEvent>, place: Place) -> bool {
    if p.punched.contains_key(place) {
        &&& p.punched[place] <= p.pos
        &&& p.live.contains_key(place)
        &&& forall|i: int|
            0 <= i < p.events.len() && ((#[trigger] p.events[i]).universe, p.events[i].channel)
                == place ==> p.punched[place] <= p.events[i].t_ms
        &&& forall|t: u32|
            p.punched[place] <= t ==> (#[trigger] last_until(p.events, t, place)) is Some
                && last_until(p.events, t, place) == last_until(fed, t, place)
        &&& forall|t: u32|
            p.pos <= t ==> #[trigger] last_until(p.events, t, place) == Some(p.live[place])
    } else {
        !p.live.contains_key(place)
    }
}

proof fn lemma_inputs(base: Seq<RecEvent>, fed: Seq<RecEvent>, place: Place)
    requires
        rec::in_time_order(fed),
        place.1 < DMX_UNIVERSE_SIZE,
    ensures
        ({
            let p = after_inputs(punch::new_pass(base), fed);
            &&& p.base == base
            &&& punch::consistent(p)
            &&& on_time(p)
            &&& fed.len() == 0 || p.pos <= fed.last().t_ms
            &&& fed.len() == 0 ==> p.pos == 0
            &&& keeps_up(p, fed, place)
        }),
    decreases fed.len(),
{
    if fed.len() == 0 {
        let p = punch::new_pass(base);
        assert(p.punched.dom() =~= p.live.dom());
    } else {
        let low = fed.drop_last();
        let e = fed.last();
        let before = after_inputs(punch::new_pass(base), low);
        let p = after_inputs(punch::new_pass(base), fed);
        let at = (e.universe, e.channel);
        assert(rec::in_time_order(low)) by {
            assert forall|i: int, j: int| 0 <= i <= j < low.len() implies low[i].t_ms
                <= low[j].t_ms by {
                assert(fed[i].t_ms <= fed[j].t_ms);
            }
        }
        lemma_inputs(base, low, place);
        if low.len() > 0 {
            assert(low.last() == fed[fed.len() - 2]);
            assert(fed[fed.len() - 2].t_ms <= fed[fed.len() - 1].t_ms);
        }
        assert(before.pos <= e.t_ms);
        law_punches_stay(before, e.t_ms, at, e.value);
        law_capture_is_in_time_order(before, e.t_ms, at, e.value);
        lemma_keeps_up(before, low, e, place);
        assert(low.push(e) =~= fed);
    }
}

proof fn lemma_keeps_up(before: Pass, low: Seq<RecEvent>, e: RecEvent, place: Place)
    requires
        keeps_up(before, low, place),
        punch::consistent(before),
        on_time(before),
        before.pos <= e.t_ms,
        place.1 < DMX_UNIVERSE_SIZE,
    ensures
        keeps_up(
            punch::after_input(before, e.t_ms, (e.universe, e.channel), e.value),
            low.push(e),
            place,
        ),
{
    let at = (e.universe, e.channel);
    let p = punch::after_input(before, e.t_ms, at, e.value);
    let fed = low.push(e);
    assert(fed.drop_last() =~= low);
    assert(p.events == before.events || p.events == before.events.push(e));
    if p.events != before.events {
        assert(p.events.drop_last() =~= before.events);
        assert(p.events.last() == e);
    }
    if p.punched.contains_key(place) {
        let t_in = p.punched[place];
        assert forall|i: int|
            0 <= i < p.events.len() && ((#[trigger] p.events[i]).universe, p.events[i].channel)
                == place implies t_in <= p.events[i].t_ms by {
            if i < before.events.len() {
                assert(p.events[i] == before.events[i]);
                assert(before.punched.contains_key(place));
            }
        }
        assert forall|t: u32| t_in <= t implies (#[trigger] last_until(p.events, t, place)) is Some
            && last_until(p.events, t, place) == last_until(fed, t, place) by {
            assert(last_until(before.events, t, place) == last_until(before.events, t, place));
            if at == place && e.t_ms <= t && p.events == before.events {
                assert(before.pos <= t);
                assert(last_until(before.events, t, place) == Some(before.live[place]));
            }
        }
        assert forall|t: u32| p.pos <= t implies #[trigger] last_until(p.events, t, place) == Some(
            p.live[place],
        ) by {
            assert(last_until(before.events, t, place) == last_until(before.events, t, place));
        }
    }
}

/// What the merged take plays. A channel that punched in plays what was last fed to it, from
/// its punch up to the pass end, and before the punch what the base plays. From the pass end
/// on it keeps what was last fed until the base has an event of the channel again, and plays
/// what the base plays from the first one past the end on. A channel that never punched in
/// plays what the base plays at every moment.
pub proof fn law_merged_take_plays(
    base: Seq<RecEvent>,
    fed: Seq<RecEvent>,
    t_ms: u32,
    place: Place,
)
    requires
        rec::in_time_order(base),
        rec::in_time_order(fed),
        place.1 < DMX_UNIVERSE_SIZE,
    ensures
        ({
            let p = after_inputs(punch::new_pass(base), fed);
            let take = punch::merged_take(p);
            let played = punch::value_at(take, t_ms, place);
            if p.punched.contains_key(place) {
                &&& t_ms < p.punched[place] ==> played == punch::value_at(base, t_ms, place)
                &&& p.punched[place] <= t_ms < p.pos ==> last_until(fed, t_ms, place) == Some(
                    played,
                )
                &&& p.pos <= t_ms && (forall|i: int|
                    0 <= i < base.len() && ((#[trigger] base[i]).universe, base[i].channel) == place
                        && p.pos <= base[i].t_ms ==> t_ms < base[i].t_ms) ==> last_until(
                    fed,
                    t_ms,
                    place,
                ) == Some(played)
                &&& (exists|i: int|
                    0 <= i < base.len() && ((#[trigger] base[i]).universe, base[i].channel) == place
                        && p.pos < base[i].t_ms <= t_ms) ==> played == punch::value_at(
                    base,
                    t_ms,
                    place,
                )
            } else {
                played == punch::value_at(base, t_ms, place)
            }
        }),
{
    let p = after_inputs(punch::new_pass(base), fed);
    let take = punch::merged_take(p);
    let keep = |e: RecEvent| punch::kept(p, e);
    let low = base.filter(keep);
    let all = punch::parts(p);
    let q = heard_by(t_ms, place);
    let punched = p.punched.contains_key(place);
    lemma_inputs(base, fed, place);
    law_take_is_in_time_order(p);
    lemma_plays(take, t_ms, place);
    lemma_plays(base, t_ms, place);
    lemma_filter_in_order(base, keep);
    if punched && exists|i: int|
        0 <= i < base.len() && ((#[trigger] base[i]).universe, base[i].channel) == place && p.pos
            < base[i].t_ms <= t_ms {
        lemma_base_is_back(p, t_ms, place);
    }
    let silent = forall|i: int|
        0 <= i < base.len() && ((#[trigger] base[i]).universe, base[i].channel) == place && p.pos
            <= base[i].t_ms ==> t_ms < base[i].t_ms;
    if !punched || t_ms < p.pos || silent {
        assert forall|i: int| 0 <= i < low.len() && q(#[trigger] low[i]) && punched implies low[i].t_ms
            < p.punched[place] by {
            broadcast use vstd::seq_lib::group_filter_ensures;

            assert(keep(low[i]));
            lemma_filter_source(base, keep, i);
            let n = choose|n: int| 0 <= n < base.len() && base[n] == low[i];
            assert(base[n].t_ms == low[i].t_ms);
        }
        assert forall|i: int, j: int|
            0 <= i < j < all.len() && q(all[i]) && q(all[j]) implies all[i].t_ms <= all[j].t_ms by {
            if j < low.len() {
                assert(low[i].t_ms <= low[j].t_ms);
            } else {
                let e = p.events[j - low.len()];
                assert(all[j] == e);
                assert(p.punched.contains_key((e.universe, e.channel)));
                if i < low.len() {
                    assert(all[i] == low[i]);
                } else {
                    assert(all[i] == p.events[i - low.len()]);
                    assert(p.events[i - low.len()].t_ms <= e.t_ms);
                }
            }
        }
        lemma_sort_keeps_order(all, q);
        lemma_filtered_value(take, t_ms, place);
        lemma_filtered_value(all, t_ms, place);
        lemma_joined_value(low, p.events, t_ms, place);
        assert(last_until(take, t_ms, place) == last_until(all, t_ms, place));
        if !punched || t_ms < p.punched[place] {
            lemma_filter_kept(base, keep, q);
            lemma_filtered_value(low, t_ms, place);
            lemma_filtered_value(base, t_ms, place);
            lemma_silent(p.events, t_ms, place);
        }
    }
}

/// The last event past a moment is the last event of all, in a time-ordered log that has one.
proof fn lemma_past(s: Seq<RecEvent>, end: u32, t_ms: u32, place: Place, i: int)
    requires
        rec::in_time_order(s),
        0 <= i < s.len(),
        heard_past(end, t_ms, place)(s[i]),
    ensures
        last_until(s, t_ms, place) == last_until(
            s.filter(heard_past(end, t_ms, place)),
            t_ms,
            place,
        ),
    decreases s.len(),
{
    reveal(Seq::filter);
    let q = heard_past(end, t_ms, place);
    let low = s.drop_last();
    let e = s.last();
    assert(s[i].t_ms <= s[s.len() - 1].t_ms);
    if q(e) {
        assert(s.filter(q) == low.filter(q).push(e));
        assert(s.filter(q).last() == e);
    } else {
        assert(s.filter(q) == low.filter(q));
        assert(rec::in_time_order(low)) by {
            assert forall|a: int, b: int| 0 <= a <= b < low.len() implies low[a].t_ms
                <= low[b].t_ms by {
                assert(s[a].t_ms <= s[b].t_ms);
            }
        }
        assert(low[i] == s[i]);
        lemma_past(low, end, t_ms, place, i);
    }
}

/// Whether an event lies on a channel, past one moment and up to another.
spec fn heard_past(end: u32, t_ms: u32, place: Place) -> spec_fn(RecEvent) -> bool {
    |e: RecEvent| (e.universe, e.channel) == place && end < e.t_ms <= t_ms
}

proof fn lemma_base_is_back(p: Pass, t_ms: u32, place: Place)
    requires
        rec::in_time_order(p.base),
        on_time(p),
        place.1 < DMX_UNIVERSE_SIZE,
        exists|i: int|
            0 <= i < p.base.len() && ((#[trigger] p.base[i]).universe, p.base[i].channel) == place
                && p.pos < p.base[i].t_ms <= t_ms,
    ensures
        punch::value_at(punch::merged_take(p), t_ms, place) == punch::value_at(
            p.base,
            t_ms,
            place,
        ),
{
    let take = punch::merged_take(p);
    let keep = |e: RecEvent| punch::kept(p, e);
    let low = p.base.filter(keep);
    let all = punch::parts(p);
    let q = heard_past(p.pos, t_ms, place);
    let i = choose|i: int|
        0 <= i < p.base.len() && ((#[trigger] p.base[i]).universe, p.base[i].channel) == place
            && p.pos < p.base[i].t_ms <= t_ms;
    law_take_is_in_time_order(p);
    lemma_plays(take, t_ms, place);
    lemma_plays(p.base, t_ms, place);
    lemma_filter_in_order(p.base, keep);
    assert forall|j: int| 0 <= j < p.events.len() implies !q(#[trigger] p.events[j]) by {}
    assert forall|a: int, b: int|
        0 <= a < b < all.len() && q(all[a]) && q(all[b]) implies all[a].t_ms <= all[b].t_ms by {
        if b >= low.len() {
            assert(!q(p.events[b - low.len()]));
        } else {
            assert(low[a].t_ms <= low[b].t_ms);
        }
    }
    lemma_sort_keeps_order(all, q);
    Seq::filter_distributes_over_add(low, p.events, q);
    lemma_filter_none(p.events, q);
    lemma_filter_kept(p.base, keep, q);
    assert(take.filter(q) =~= p.base.filter(q));
    law_take_holds(p, p.base[i]);
    assert(p.base.contains(p.base[i]));
    assert(take.contains(p.base[i]));
    let n = choose|n: int| 0 <= n < take.len() && take[n] == p.base[i];
    lemma_past(p.base, p.pos, t_ms, place, i);
    lemma_past(take, p.pos, t_ms, place, n);
}

/// A channel punches in the moment its input differs from what the take plays then, above or
/// below: from that moment on it is live at the fed value, which is captured.
pub proof fn law_differing_input_punches_in(p: Pass, t_ms: u32, place: Place, value: u8)
    requires
        place.1 < 512,
        !p.live.contains_key(place),
        value != punch::value_at(p.base, t_ms, place),
    ensures
        ({
            let after = punch::after_input(p, t_ms, place, value);
            &&& after.punched == p.punched.insert(place, t_ms)
            &&& after.live == p.live.insert(place, value)
            &&& after.events == p.events.push(
                RecEvent { t_ms, universe: place.0, channel: place.1, value },
            )
            &&& after.base == p.base
        }),
{
}

/// A live channel captures every change, and nothing else: it stays punched in since the same
/// moment and is live at what was fed last.
pub proof fn law_live_channel_captures_changes(p: Pass, t_ms: u32, place: Place, value: u8)
    requires
        place.1 < 512,
        p.live.contains_key(place),
    ensures
        ({
            let after = punch::after_input(p, t_ms, place, value);
            &&& after.punched == p.punched
            &&& after.live == p.live.insert(place, value)
            &&& value == p.live[place] ==> after.events == p.events
            &&& value != p.live[place] ==> after.events == p.events.push(
                RecEvent { t_ms, universe: place.0, channel: place.1, value },
            )
        }),
{
    let after = punch::after_input(p, t_ms, place, value);
    assert(after.live =~= p.live.insert(place, value));
}

/// Input on one channel says nothing of another, and the clock of a pass is the latest time
/// of an input. There are 512 channels: input past them is ignored.
pub proof fn law_input_reaches_its_channel_only(
    p: Pass,
    t_ms: u32,
    place: Place,
    value: u8,
    other: Place,
)
    requires
        other != place,
    ensures
        ({
            let after = punch::after_input(p, t_ms, place, value);
            &&& after.punched.contains_key(other) == p.punched.contains_key(other)
            &&& p.punched.contains_key(other) ==> after.punched[other] == p.punched[other]
            &&& after.live.contains_key(other) == p.live.contains_key(other)
            &&& p.live.contains_key(other) ==> after.live[other] == p.live[other]
            &&& place.1 < 512 ==> after.pos >= p.pos && after.pos >= t_ms && (after.pos == p.pos
                || after.pos == t_ms)
            &&& place.1 >= 512 ==> after == p
        }),
{
}

/// Over any time-ordered inputs: a channel is punched in exactly when it was once fed
/// something else than the base plays at that moment, and its punch is the first time that
/// happened.
pub proof fn law_punch_is_the_first_difference(base: Seq<RecEvent>, fed: Seq<RecEvent>, place: Place)
    requires
        place.1 < 512,
    ensures
        ({
            let p = after_inputs(punch::new_pass(base), fed);
            &&& p.punched.contains_key(place) <==> exists|i: int|
                0 <= i < fed.len() && #[trigger] differs(base, fed[i], place)
            &&& p.punched.contains_key(place) ==> exists|i: int|
                0 <= i < fed.len() && #[trigger] differs(base, fed[i], place) && fed[i].t_ms
                    == p.punched[place] && forall|j: int|
                    0 <= j < i ==> !#[trigger] differs(base, fed[j], place)
            &&& p.live.contains_key(place) == p.punched.contains_key(place)
            &&& p.base == base
        }),
    decreases fed.len(),
{
    if fed.len() > 0 {
        let low = fed.drop_last();
        let e = fed.last();
        law_punch_is_the_first_difference(base, low, place);
        let before = after_inputs(punch::new_pass(base), low);
        let p = after_inputs(punch::new_pass(base), fed);
        assert forall|i: int| 0 <= i < low.len() implies #[trigger] low[i] == fed[i] by {}
        if exists|i: int| 0 <= i < low.len() && #[trigger] differs(base, low[i], place) {
            let i = choose|i: int|
                0 <= i < low.len() && #[trigger] differs(base, low[i], place) && low[i].t_ms
                    == before.punched[place] && forall|j: int|
                    0 <= j < i ==> !#[trigger] differs(base, low[j], place);
            assert(differs(base, fed[i], place));
            assert forall|j: int| 0 <= j < i implies !#[trigger] differs(base, fed[j], place) by {
                assert(!differs(base, low[j], place));
            }
            assert(p.punched.contains_key(place));
            assert(p.punched[place] == before.punched[place]);
        } else {
            assert forall|j: int| 0 <= j < low.len() implies !#[trigger] differs(
                base,
                fed[j],
                place,
            ) by {
                assert(!differs(base, low[j], place));
            }
            if differs(base, e, place) {
                assert(differs(base, fed[fed.len() - 1], place));
                assert(p.punched[place] == e.t_ms);
            }
        }
    }
}

/// Whether an input on a channel is something else than the base plays at that moment.
pub open spec fn differs(base: Seq<RecEvent>, e: RecEvent, place: Place) -> bool {
    (e.universe, e.channel) == place && e.value != punch::value_at(base, e.t_ms, place)
}

/// A channel that was fed something else than the base plays at a moment of the pass plays
/// what was fed then, as the last thing at that moment, in the merged take.
pub proof fn law_fed_difference_is_played(base: Seq<RecEvent>, fed: Seq<RecEvent>, i: int)
    requires
        rec::in_time_order(base),
        rec::in_time_order(fed),
        0 <= i < fed.len(),
        fed[i].channel < 512,
        fed[i].value != punch::value_at(
            base,
            fed[i].t_ms,
            (fed[i].universe, fed[i].channel),
        ),
        fed[i].t_ms < after_inputs(punch::new_pass(base), fed).pos,
        forall|j: int|
            i < j < fed.len() && (#[trigger] fed[j]).universe == fed[i].universe && fed[j].channel
                == fed[i].channel ==> fed[i].t_ms < fed[j].t_ms,
    ensures
        punch::value_at(
            punch::merged_take(after_inputs(punch::new_pass(base), fed)),
            fed[i].t_ms,
            (fed[i].universe, fed[i].channel),
        ) == fed[i].value,
{
    let place = (fed[i].universe, fed[i].channel);
    let p = after_inputs(punch::new_pass(base), fed);
    law_punch_is_the_first_difference(base, fed, place);
    assert(differs(base, fed[i], place));
    let k = choose|k: int|
        0 <= k < fed.len() && #[trigger] differs(base, fed[k], place) && fed[k].t_ms
            == p.punched[place] && forall|j: int|
            0 <= j < k ==> !#[trigger] differs(base, fed[j], place);
    assert(k <= i);
    assert(fed[k].t_ms <= fed[i].t_ms);
    law_merged_take_plays(base, fed, fed[i].t_ms, place);
    lemma_last_is(fed, i, fed.len());
    assert(fed.take(fed.len() as int) =~= fed);
}

proof fn lemma_last_is(fed: Seq<RecEvent>, i: int, n: nat)
    requires
        0 <= i < n <= fed.len(),
        forall|j: int|
            i < j < fed.len() && (#[trigger] fed[j]).universe == fed[i].universe && fed[j].channel
                == fed[i].channel ==> fed[i].t_ms < fed[j].t_ms,
    ensures
        last_until(fed.take(n as int), fed[i].t_ms, (fed[i].universe, fed[i].channel)) == Some(
            fed[i].value,
        ),
    decreases n,
{
    let part = fed.take(n as int);
    assert(part.last() == fed[n - 1]);
    assert(part.drop_last() =~= fed.take(n - 1));
    if i < n - 1 {
        lemma_last_is(fed, i, (n - 1) as nat);
    }
}

/// The merged take keeps what the pass does not replace: every base event of a channel that
/// did not punch in, every one before a channel's punch, and every one from the pass end on;
/// and it holds all that was captured.
pub proof fn law_take_keeps_what_the_pass_leaves(p: Pass, e: RecEvent)
    requires
        p.base.contains(e),
        !p.punched.contains_key((e.universe, e.channel)) || e.t_ms < p.punched[(
            e.universe,
            e.channel,
        )] || p.pos <= e.t_ms,
    ensures
        punch::merged_take(p).contains(e),
        forall|c: RecEvent| p.events.contains(c) ==> #[trigger] punch::merged_take(p).contains(c),
{
    law_take_holds(p, e);
    assert forall|c: RecEvent| p.events.contains(c) implies #[trigger] punch::merged_take(
        p,
    ).contains(c) by {
        law_take_holds(p, c);
    }
}

/// While a pass runs, a live channel shows what was fed last, and every other channel shows
/// what the base plays.
pub proof fn law_monitor_shows_live_over_base(
    frame: play::FrameLevels,
    live: Map<Place, u8>,
    universe: u16,
    ch: u16,
)
    requires
        play::full(frame),
        ch < 512,
    ensures
        play::levels_of(punch::overlaid(frame, live), universe)[ch as int] == (
        if live.contains_key((universe, ch)) {
            Some(live[(universe, ch)])
        } else {
            play::levels_of(frame, universe)[ch as int]
        }),
{
    let over = punch::overlaid(frame, live);
    if live.contains_key((universe, ch)) {
        assert(over.contains_key(universe));
    }
}

proof fn lemma_silent(events: Seq<RecEvent>, t_ms: u32, place: Place)
    requires
        forall|i: int|
            0 <= i < events.len() ==> ((#[trigger] events[i]).universe, events[i].channel) != place
                || t_ms < events[i].t_ms,
    ensures
        last_until(events, t_ms, place) is None,
    decreases events.len(),
{
    if events.len() > 0 {
        let low = events.drop_last();
        assert forall|i: int| 0 <= i < low.len() implies ((#[trigger] low[i]).universe, low[i].channel)
            != place || t_ms < low[i].t_ms by {
            assert(low[i] == events[i]);
        }
        lemma_silent(low, t_ms, place);
        assert(events.last() == events[events.len() - 1]);
    }
}

/// A received universe is fed channel by channel: each of the 512 gets its own level, at
/// the universe's time.
pub proof fn law_universe_feeds_every_channel(
    p: Pass,
    t_ms: u32,
    universe: u16,
    data: Seq<u8>,
    n: nat,
)
    requires
        n <= 512,
    ensures
        punch::after_channels(p, t_ms, universe, data, n) == after_inputs(
            p,
            Seq::new(
                n,
                |c: int| RecEvent { t_ms, universe, channel: c as u16, value: data[c] },
            ),
        ),
    decreases n,
{
    let fed = Seq::new(
        n,
        |c: int| RecEvent { t_ms, universe, channel: c as u16, value: data[c] },
    );
    if n > 0 {
        law_universe_feeds_every_channel(p, t_ms, universe, data, (n - 1) as nat);
        assert(fed.drop_last() =~= Seq::new(
            (n - 1) as nat,
            |c: int| RecEvent { t_ms, universe, channel: c as u16, value: data[c] },
        ));
    }
}

/// A pass starts over its base with nothing captured and nothing punched, at the start.
pub proof fn law_new_pass_is_empty(base: Seq<RecEvent>)
    ensures
        punch::new_pass(base).base == base,
        punch::new_pass(base).events.len() == 0,
        punch::new_pass(base).pos == 0,
        forall|place: Place|
            !(#[trigger] punch::new_pass(base).punched.contains_key(place))
                && !punch::new_pass(base).live.contains_key(place),
{
}

} // verus!
