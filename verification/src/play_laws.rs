//! What holds of every frame, whatever was written into it.

use vstd::prelude::*;

use crate::dmx::DMX_UNIVERSE_SIZE;
use crate::play;
use crate::play::FrameLevels;

verus! {

/// A call that writes into a frame.
pub enum Edit {
    /// [`play::MaskedFrame::set`].
    One { universe: u16, channel: u16, value: u8 },
    /// [`play::MaskedFrame::write_span`].
    Span { universe: u16, address: u16, bytes: Seq<u8> },
    /// [`play::MaskedFrame::pack_fixtures`].
    Fixtures { footprint: usize, data: Seq<u8>, universe: u16, address: u16 },
}

/// A frame after a call.
pub open spec fn edited(frame: FrameLevels, edit: Edit) -> FrameLevels {
    match edit {
        Edit::One { universe, channel, value } => play::with_channel(
            frame,
            universe,
            channel,
            value,
        ),
        Edit::Span { universe, address, bytes } => frame.insert(
            universe,
            play::with_span(
                play::levels_of(frame, universe),
                play::address_index(address),
                bytes,
            ),
        ),
        Edit::Fixtures { footprint, data, universe, address } => if 0 < footprint
            <= DMX_UNIVERSE_SIZE {
            play::with_fixtures(
                frame,
                play::fixture_count(data.len(), footprint as int),
                footprint as int,
                data,
                universe,
                play::address_index(address),
            )
        } else {
            frame
        },
    }
}

/// An empty frame after those calls, one behind the other.
pub open spec fn after_edits(edits: Seq<Edit>) -> FrameLevels
    decreases edits.len(),
{
    if edits.len() == 0 {
        Map::empty()
    } else {
        edited(after_edits(edits.drop_last()), edits.last())
    }
}

/// Whether fixture `k` of packed data covers a channel.
pub open spec fn covers(
    k: nat,
    footprint: int,
    data: Seq<u8>,
    start: (u16, int),
    universe: u16,
    ch: int,
) -> bool {
    let place = play::fixture_place(k, start.0, start.1, footprint);
    place.0 == universe && place.1 <= ch < place.1 + play::fixture_bytes(data, k, footprint).len()
}

/// Whether a call writes a channel.
pub open spec fn writes(edit: Edit, universe: u16, ch: int) -> bool {
    match edit {
        Edit::One { universe: u, channel, .. } => u == universe && channel == ch,
        Edit::Span { universe: u, address, bytes } => u == universe && play::address_index(address)
            <= ch < play::address_index(address) + bytes.len(),
        Edit::Fixtures { footprint, data, universe: u, address } => 0 < footprint
            <= DMX_UNIVERSE_SIZE && exists|k: nat|
            k < play::fixture_count(data.len(), footprint as int) && #[trigger] covers(
                k,
                footprint as int,
                data,
                (u, play::address_index(address)),
                universe,
                ch,
            ),
    }
}

proof fn lemma_span(frame: FrameLevels, target: u16, start: int, bytes: Seq<u8>)
    requires
        play::full(frame),
    ensures
        ({
            let after = frame.insert(
                target,
                play::with_span(play::levels_of(frame, target), start, bytes),
            );
            &&& play::full(after)
            &&& forall|universe: u16, ch: int|
                0 <= ch < DMX_UNIVERSE_SIZE ==> ((#[trigger] play::levels_of(
                    after,
                    universe,
                )[ch]) is Some <==> play::levels_of(frame, universe)[ch] is Some || (universe
                    == target && start <= ch < start + bytes.len()))
        }),
{
}

proof fn lemma_fixtures(
    frame: FrameLevels,
    n: nat,
    footprint: int,
    data: Seq<u8>,
    start: (u16, int),
    universe: u16,
    ch: int,
)
    requires
        play::full(frame),
        0 <= ch < DMX_UNIVERSE_SIZE,
    ensures
        ({
            let after = play::with_fixtures(frame, n, footprint, data, start.0, start.1);
            &&& play::full(after)
            &&& play::levels_of(after, universe)[ch] is Some <==> play::levels_of(
                frame,
                universe,
            )[ch] is Some || exists|k: nat|
                k < n && #[trigger] covers(k, footprint, data, start, universe, ch)
        }),
    decreases n,
{
    if n > 0 {
        let k = (n - 1) as nat;
        let before = play::with_fixtures(frame, k, footprint, data, start.0, start.1);
        let place = play::fixture_place(k, start.0, start.1, footprint);
        let bytes = play::fixture_bytes(data, k, footprint);
        lemma_fixtures(frame, k, footprint, data, start, universe, ch);
        lemma_span(before, place.0, place.1, bytes);
        let now = play::levels_of(
            play::with_fixtures(frame, n, footprint, data, start.0, start.1),
            universe,
        )[ch] is Some;
        assert(now <==> play::levels_of(before, universe)[ch] is Some || covers(
            k,
            footprint,
            data,
            start,
            universe,
            ch,
        ));
    }
}

/// A channel of a frame is owned exactly when an earlier call wrote it; one that none wrote
/// reads 0. What a player's frame owns, [`play::law_channel_at`] says.
pub proof fn law_owned_is_what_was_written(edits: Seq<Edit>, universe: u16, ch: int)
    requires
        0 <= ch < DMX_UNIVERSE_SIZE,
    ensures
        play::full(after_edits(edits)),
        play::levels_of(after_edits(edits), universe)[ch] is Some <==> exists|i: int|
            0 <= i < edits.len() && writes(#[trigger] edits[i], universe, ch),
        !(exists|i: int| 0 <= i < edits.len() && writes(#[trigger] edits[i], universe, ch))
            ==> play::levels_of(after_edits(edits), universe)[ch].unwrap_or(0) == 0,
    decreases edits.len(),
{
    if edits.len() > 0 {
        let before = edits.drop_last();
        let last = edits.last();
        let frame = after_edits(before);
        law_owned_is_what_was_written(before, universe, ch);
        match last {
            Edit::One { .. } => {},
            Edit::Span { universe: u, address, bytes } => {
                lemma_span(frame, u, play::address_index(address), bytes);
            },
            Edit::Fixtures { footprint, data, universe: u, address } => {
                lemma_fixtures(
                    frame,
                    play::fixture_count(data.len(), footprint as int),
                    footprint as int,
                    data,
                    (u, play::address_index(address)),
                    universe,
                    ch,
                );
            },
        }
        let owned = play::levels_of(after_edits(edits), universe)[ch] is Some;
        assert(owned <==> play::levels_of(frame, universe)[ch] is Some || writes(
            last,
            universe,
            ch,
        ));
        if exists|i: int| 0 <= i < before.len() && writes(#[trigger] before[i], universe, ch) {
            let i = choose|i: int|
                0 <= i < before.len() && writes(#[trigger] before[i], universe, ch);
            assert(writes(edits[i], universe, ch));
        }
        if exists|i: int| 0 <= i < edits.len() && writes(#[trigger] edits[i], universe, ch) {
            let i = choose|i: int| 0 <= i < edits.len() && writes(#[trigger] edits[i], universe, ch);
            if i < before.len() {
                assert(writes(before[i], universe, ch));
            }
        }
        assert(edits[edits.len() - 1] == last);
    }
}

/// A multiple is at most a number exactly when the factor is at most the quotient.
proof fn lemma_fits(x: int, fp: int, room: int)
    requires
        0 < fp,
        0 <= room,
        0 <= x,
    ensures
        x * fp <= room <==> x <= room / fp,
{
    let q = room / fp;
    vstd::arithmetic::div_mod::lemma_fundamental_div_mod(room, fp);
    assert(x * fp <= room <==> x <= q) by (nonlinear_arith)
        requires
            0 < fp,
            room == fp * q + room % fp,
            0 <= room % fp < fp,
    ;
}

proof fn lemma_next_quotient(j: int, per: int)
    requires
        0 < per,
        0 <= j,
    ensures
        j % per + 1 < per ==> (j + 1) / per == j / per && (j + 1) % per == j % per + 1,
        j % per + 1 == per ==> (j + 1) / per == j / per + 1 && (j + 1) % per == 0,
        0 <= j % per < per,
        0 <= j / per,
{
    vstd::arithmetic::div_mod::lemma_fundamental_div_mod(j, per);
    let (q, r) = (j / per, j % per);
    assert(0 <= q) by (nonlinear_arith)
        requires
            j == per * q + r,
            0 <= r < per,
            0 <= j,
    ;
    assert(q * per == per * q) by (nonlinear_arith);
    if r + 1 < per {
        vstd::arithmetic::div_mod::lemma_fundamental_div_mod_converse(j + 1, per, q, r + 1);
    } else {
        assert((q + 1) * per + 0 == j + 1) by (nonlinear_arith)
            requires
                j == per * q + r,
                r + 1 == per,
        ;
        vstd::arithmetic::div_mod::lemma_fundamental_div_mod_converse(j + 1, per, q + 1, 0);
    }
}

/// Where fixture `k` lies. The first universe takes as many fixtures as fit behind the start
/// channel, every further one as many as fit into a universe, each universe the next number
/// and each fixture directly behind the one before it.
pub proof fn law_fixtures_fill_universe_after_universe(
    k: nat,
    universe: u16,
    address: u16,
    footprint: int,
)
    requires
        0 < footprint <= 512,
    ensures
        ({
            let start = if address == 0 {
                0
            } else {
                address - 1
            };
            let first = if start + footprint <= 512 {
                (512 - start) / footprint
            } else {
                0
            };
            let per = 512int / footprint;
            let place = play::fixture_place(k, universe, play::address_index(address), footprint);
            if k < first {
                place == (universe, start + k * footprint)
            } else {
                &&& place.0 == (universe + 1 + (k - first) / per) % 65536
                &&& place.1 == (k - first) % per * footprint
            }
        }),
    decreases k,
{
    let start = play::address_index(address);
    let first = if start + footprint <= 512 {
        (512 - start) / footprint
    } else {
        0
    };
    let per = 512int / footprint;
    lemma_fits(1, footprint, 512);
    assert(per >= 1);
    assert(0 * footprint == 0) by (nonlinear_arith);
    if start + footprint <= 512 {
        lemma_fits(1, footprint, 512 - start);
    }
    if k == 0 {
        if first == 0 {
            vstd::arithmetic::div_mod::lemma_fundamental_div_mod_converse(0, per, 0, 0);
        }
    } else {
        let j = (k - 1) as nat;
        law_fixtures_fill_universe_after_universe(j, universe, address, footprint);
        let last = play::fixture_place(j, universe, start, footprint);
        if j < first {
            lemma_fits(k as int + 1, footprint, 512 - start);
            assert((k + 1) * footprint == k * footprint + footprint) by (nonlinear_arith);
            assert(k * footprint == j * footprint + footprint) by (nonlinear_arith)
                requires
                    j == k - 1,
            ;
            if k >= first {
                vstd::arithmetic::div_mod::lemma_fundamental_div_mod_converse(0, per, 0, 0);
            }
        } else {
            let m = j - first;
            let (q, r) = (m / per, m % per);
            lemma_next_quotient(m, per);
            lemma_fits(r + 2, footprint, 512);
            assert((r + 2) * footprint == r * footprint + footprint + footprint
                && (r + 1) * footprint == r * footprint + footprint) by (nonlinear_arith);
            assert(last.0 == (universe + 1 + q) % 65536);
            assert(last.1 == r * footprint);
        }
    }
}

/// Fixtures do not overlap, as long as the universes do not run out: a later one lies in
/// another universe or behind an earlier one.
proof fn lemma_apart(k: nat, m: nat, universe: u16, address: u16, footprint: int)
    requires
        0 < footprint <= 512,
        k < m,
        m as int / (512int / footprint) < 65535,
    ensures
        ({
            let a = play::fixture_place(k, universe, play::address_index(address), footprint);
            let b = play::fixture_place(m, universe, play::address_index(address), footprint);
            a.0 != b.0 || a.1 + footprint <= b.1
        }),
{
    let start = play::address_index(address);
    let first = if start + footprint <= 512 {
        (512 - start) / footprint
    } else {
        0
    };
    let per = 512int / footprint;
    law_fixtures_fill_universe_after_universe(k, universe, address, footprint);
    law_fixtures_fill_universe_after_universe(m, universe, address, footprint);
    lemma_fits(1, footprint, 512);
    assert(k * footprint + footprint <= m * footprint) by (nonlinear_arith)
        requires
            k + 1 <= m,
            0 < footprint,
    ;
    if start + footprint <= 512 {
        lemma_fits(1, footprint, 512 - start);
    }
    if m >= first {
        let x = m - first;
        vstd::arithmetic::div_mod::lemma_fundamental_div_mod(x, per);
        let (q, r) = (x / per, x % per);
        assert(0 <= q) by (nonlinear_arith)
            requires
                x == per * q + r,
                0 <= r < per,
                0 <= x,
        ;
        vstd::arithmetic::div_mod::lemma_div_is_ordered(x, m as int, per);
        if k >= first {
            let y = k - first;
            vstd::arithmetic::div_mod::lemma_fundamental_div_mod(y, per);
            let (p, s) = (y / per, y % per);
            assert(0 <= p) by (nonlinear_arith)
                requires
                    y == per * p + s,
                    0 <= s < per,
                    0 <= y,
            ;
            vstd::arithmetic::div_mod::lemma_div_is_ordered(y, x, per);
            if p == q {
                assert(s * footprint + footprint <= r * footprint) by (nonlinear_arith)
                    requires
                        s + 1 <= r,
                        0 < footprint,
                ;
            }
        }
    }
}

/// Every byte of packed data is on the wire: byte `i` of fixture `k` is the level of the
/// channel `i` places behind where the fixture lies. For data that does not need more
/// universes than there are, so that no fixture is packed over another.
pub proof fn law_packed_fixtures_hold_their_data(
    frame: FrameLevels,
    footprint: usize,
    data: Seq<u8>,
    universe: u16,
    address: u16,
    k: nat,
    i: int,
)
    requires
        play::full(frame),
        0 < footprint <= 512,
        (data.len() + footprint - 1) / footprint as int / (512int / footprint as int) < 65535,
        0 <= i < footprint,
        k * footprint + i < data.len(),
    ensures
        ({
            let start = if address == 0 {
                0
            } else {
                address - 1
            };
            let first = if start + footprint <= 512 {
                (512 - start) / footprint as int
            } else {
                0
            };
            let per = 512int / footprint as int;
            let after = edited(frame, Edit::Fixtures { footprint, data, universe, address });
            let byte = data[k * footprint + i];
            if k < first {
                play::levels_of(after, universe)[start + k * footprint + i] == Some(byte)
            } else {
                play::levels_of(
                    after,
                    ((universe + 1 + (k - first) / per) % 65536) as u16,
                )[(k - first) % per * footprint + i] == Some(byte)
            }
        }),
{
    let fp = footprint as int;
    let n = play::fixture_count(data.len(), fp);
    let start = (universe, play::address_index(address));
    let len = data.len() as int;
    vstd::arithmetic::div_mod::lemma_fundamental_div_mod(len + fp - 1, fp);
    let q = (len + fp - 1) / fp;
    assert(k < q) by (nonlinear_arith)
        requires
            k * fp + i < len,
            0 <= i < fp,
            len + fp - 1 == fp * q + (len + fp - 1) % fp,
            0 <= (len + fp - 1) % fp < fp,
            0 < fp,
    ;
    law_fixtures_fill_universe_after_universe(k, universe, address, fp);
    lemma_packed_byte(frame, n, fp, data, universe, address, k, i);
}

proof fn lemma_packed_byte(
    frame: FrameLevels,
    n: nat,
    fp: int,
    data: Seq<u8>,
    universe: u16,
    address: u16,
    k: nat,
    i: int,
)
    requires
        play::full(frame),
        0 < fp <= 512,
        k < n,
        n as int / (512int / fp) < 65535,
        0 <= i < fp,
        k * fp + i < data.len(),
    ensures
        ({
            let start = play::address_index(address);
            let place = play::fixture_place(k, universe, start, fp);
            let after = play::with_fixtures(frame, n, fp, data, universe, start);
            play::levels_of(after, place.0)[place.1 + i] == Some(data[k * fp + i])
        }),
    decreases n,
{
    let start = play::address_index(address);
    let place = play::fixture_place(k, universe, start, fp);
    let m = (n - 1) as nat;
    let before = play::with_fixtures(frame, m, fp, data, universe, start);
    lemma_fits(1, fp, 512);
    vstd::arithmetic::div_mod::lemma_div_is_ordered(m as int, n as int, 512int / fp);
    play::law_fixtures_never_split(k, universe, address, fp);
    play::law_fixtures_never_split(m, universe, address, fp);
    lemma_fixtures(frame, m, fp, data, (universe, start), place.0, place.1 + i);
    if m == k {
        let bytes = play::fixture_bytes(data, k, fp);
        assert(bytes[i] == data[k * fp + i]);
    } else {
        lemma_packed_byte(frame, m, fp, data, universe, address, k, i);
        lemma_apart(k, m, universe, address, fp);
    }
}

/// Packing leaves every channel alone that no fixture covers.
pub proof fn law_packing_leaves_the_rest(
    frame: FrameLevels,
    footprint: usize,
    data: Seq<u8>,
    universe: u16,
    address: u16,
    u: u16,
    ch: int,
)
    requires
        play::full(frame),
        0 <= ch < 512,
        forall|k: nat| !#[trigger] covers(
            k,
            footprint as int,
            data,
            (universe, play::address_index(address)),
            u,
            ch,
        ),
    ensures
        play::levels_of(
            edited(frame, Edit::Fixtures { footprint, data, universe, address }),
            u,
        )[ch] == play::levels_of(frame, u)[ch],
{
    if 0 < footprint <= DMX_UNIVERSE_SIZE {
        lemma_uncovered(
            frame,
            play::fixture_count(data.len(), footprint as int),
            footprint as int,
            data,
            (universe, play::address_index(address)),
            u,
            ch,
        );
    }
}

proof fn lemma_uncovered(
    frame: FrameLevels,
    n: nat,
    footprint: int,
    data: Seq<u8>,
    start: (u16, int),
    u: u16,
    ch: int,
)
    requires
        play::full(frame),
        0 <= ch < DMX_UNIVERSE_SIZE,
        forall|k: nat| !#[trigger] covers(k, footprint, data, start, u, ch),
    ensures
        play::levels_of(play::with_fixtures(frame, n, footprint, data, start.0, start.1), u)[ch]
            == play::levels_of(frame, u)[ch],
    decreases n,
{
    if n > 0 {
        let k = (n - 1) as nat;
        lemma_uncovered(frame, k, footprint, data, start, u, ch);
        lemma_fixtures(frame, k, footprint, data, start, u, ch);
        assert(!covers(k, footprint, data, start, u, ch));
    }
}

/// A written span is on its channels, cut off at the end of the universe, and nowhere else:
/// from the 1-based address on, or from the start of the universe for address 0.
pub proof fn law_span_is_where_it_was_written(
    frame: FrameLevels,
    universe: u16,
    address: u16,
    bytes: Seq<u8>,
    u: u16,
    ch: int,
)
    requires
        play::full(frame),
        0 <= ch < 512,
    ensures
        ({
            let at = if address == 0 {
                0
            } else {
                address - 1
            };
            let after = edited(frame, Edit::Span { universe, address, bytes });
            play::levels_of(after, u)[ch] == (if u == universe && at <= ch < at + bytes.len() {
                Some(bytes[ch - at])
            } else {
                play::levels_of(frame, u)[ch]
            })
        }),
{
}

/// Setting a channel gives it the value, and touches no other.
pub proof fn law_set_is_where_it_was_written(
    frame: FrameLevels,
    universe: u16,
    channel: u16,
    value: u8,
    u: u16,
    ch: int,
)
    requires
        play::full(frame),
        0 <= ch < 512,
    ensures
        play::levels_of(edited(frame, Edit::One { universe, channel, value }), u)[ch] == (if u
            == universe && ch == channel {
            Some(value)
        } else {
            play::levels_of(frame, u)[ch]
        }),
{
}

/// A frame at zero claims the channels that it claimed, in the same universes, and each of
/// them is zero.
pub proof fn law_zeroed_frame(frame: FrameLevels, universe: u16, ch: int)
    requires
        play::full(frame),
        0 <= ch < 512,
    ensures
        play::zeroed(frame).contains_key(universe) == frame.contains_key(universe),
        play::levels_of(play::zeroed(frame), universe)[ch] is Some <==> play::levels_of(
            frame,
            universe,
        )[ch] is Some,
        play::levels_of(play::zeroed(frame), universe)[ch].unwrap_or(0) == 0,
{
}

/// A universe that a frame does not hold claims nothing.
pub proof fn law_missing_universe_is_unclaimed(frame: FrameLevels, universe: u16, ch: int)
    requires
        0 <= ch < 512,
        !frame.contains_key(universe),
    ensures
        play::levels_of(frame, universe).len() == 512,
        play::levels_of(frame, universe)[ch] is None,
{
}

proof fn lemma_packed_universes(
    frame: FrameLevels,
    n: nat,
    footprint: int,
    data: Seq<u8>,
    universe: u16,
    ch: int,
    u: u16,
)
    ensures
        play::with_fixtures(frame, n, footprint, data, universe, ch).contains_key(u)
            <==> frame.contains_key(u) || exists|k: nat|
            k < n && (#[trigger] play::fixture_place(k, universe, ch, footprint)).0 == u,
    decreases n,
{
    if n > 0 {
        let k = (n - 1) as nat;
        lemma_packed_universes(frame, k, footprint, data, universe, ch, u);
        assert(play::fixture_place(k, universe, ch, footprint).0 == u ==> exists|j: nat|
            j < n && (#[trigger] play::fixture_place(j, universe, ch, footprint)).0 == u);
    }
}

/// Packing adds the universes that its fixtures lie in, those that hold some of the data,
/// and no other.
pub proof fn law_packing_adds_its_universes(
    frame: FrameLevels,
    footprint: usize,
    data: Seq<u8>,
    universe: u16,
    address: u16,
    u: u16,
)
    requires
        0 < footprint <= 512,
    ensures
        edited(frame, Edit::Fixtures { footprint, data, universe, address }).contains_key(u)
            <==> frame.contains_key(u) || exists|k: nat|
            k * footprint < data.len() && (#[trigger] play::fixture_place(
                k,
                universe,
                play::address_index(address),
                footprint as int,
            )).0 == u,
{
    let n = play::fixture_count(data.len(), footprint as int);
    let ch = play::address_index(address);
    lemma_packed_universes(frame, n, footprint as int, data, universe, ch, u);
    assert forall|k: nat|
        #![trigger play::fixture_place(k, universe, ch, footprint as int)]
        k < n <==> k * footprint < data.len() by {
        let f = footprint as int;
        let len = data.len() as int;
        vstd::arithmetic::div_mod::lemma_fundamental_div_mod(len + f - 1, f);
        let q = (len + f - 1) / f;
        assert(f * q <= len + f - 1 && len + f - 1 < f * q + f) by {
            vstd::arithmetic::div_mod::lemma_mod_bound(len + f - 1, f);
        }
        assert(q >= 0) by {
            vstd::arithmetic::div_mod::lemma_div_pos_is_pos(len + f - 1, f);
        }
        assert(n == q);
        if k < q {
            assert(k * f <= f * q - f) by (nonlinear_arith)
                requires
                    k <= q - 1,
                    f > 0,
            ;
        } else {
            assert(k * f >= f * q) by (nonlinear_arith)
                requires
                    k >= q,
                    f > 0,
            ;
        }
    }
}

} // verus!
