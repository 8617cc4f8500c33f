//! Priority compositing of masked layers.
//!
//! Several layers are merged sACN-style: the highest priority wins per channel, and a
//! layer's fade says how strongly its owned channels cover what lies underneath. A
//! fade moves pan and tilt towards the layer instead of dipping through zero.

use vstd::prelude::*;

use crate::dmx;
use crate::dmx::{DmxFrame, Universe, DMX_UNIVERSE_SIZE};
use crate::order;
use crate::order::order_by_key;
use crate::play;
use crate::play::{FrameLevels, Levels, MaskedFrame};

verus! {

/// What a partly faded layer makes of each pair of values: one byte for each value
/// underneath and each value of the layer.
pub struct FadeTable {
    mixed: Vec<u8>,
}

impl View for FadeTable {
    type V = Seq<u8>;

    closed spec fn view(&self) -> Seq<u8> {
        self.mixed@
    }
}

impl FadeTable {
    #[verifier::type_invariant]
    spec fn whole(&self) -> bool {
        self.mixed@.len() == 65536
    }

    /// A table from its entries, 256 for each value underneath; `None` unless it is
    /// whole.
    pub fn new(mixed: Vec<u8>) -> (table: Option<FadeTable>)
        ensures
            table is Some <==> mixed@.len() == 65536,
            table matches Some(t) ==> t@ == mixed@,
    {
        if mixed.len() == 65536 {
            Some(FadeTable { mixed })
        } else {
            None
        }
    }

    /// The entry of one pair of values.
    pub fn mix(&self, under: u8, value: u8) -> (mixed: u8)
        ensures
            mixed == self@[under * 256 + value],
    {
        proof {
            use_type_invariant(self);
        }
        self.mixed[under as usize * 256 + value as usize]
    }
}

/// How strongly a layer covers what lies under it.
pub enum Fade {
    /// Not at all: the layer takes no part.
    Hidden,
    /// Wholly: owned channels take the layer's value.
    Full,
    /// In between: owned channels take a mix.
    Mix(FadeTable),
}

/// The value of an owned channel after a layer was painted over it.
pub open spec fn faded(fade: Fade, under: u8, value: u8) -> u8 {
    match fade {
        Fade::Hidden => under,
        Fade::Full => value,
        Fade::Mix(table) => table@[under * 256 + value],
    }
}

impl Fade {
    /// The value of an owned channel after the layer was painted over it.
    fn apply(&self, under: u8, value: u8) -> (v: u8)
        ensures
            v == faded(*self, under, value),
    {
        match self {
            Fade::Hidden => under,
            Fade::Full => value,
            Fade::Mix(table) => table.mix(under, value),
        }
    }
}

/// A layer of the merge: its priority, its fade and its frame.
pub type Layer = (u8, Fade, FrameLevels);

/// The layers that a merge is made of.
pub open spec fn layers_of(layers: Seq<(u8, Fade, &MaskedFrame)>) -> Seq<Layer> {
    layers.map_values(|l: (u8, Fade, &MaskedFrame)| (l.0, l.1, l.2@))
}

/// One universe after a layer was painted over it: its owned channels change, and no
/// others.
pub open spec fn painted_universe(under: Seq<u8>, levels: Levels, fade: Fade) -> Seq<u8> {
    Seq::new(
        DMX_UNIVERSE_SIZE as nat,
        |ch: int|
            match levels[ch] {
                Some(v) => faded(fade, under[ch], v),
                None => under[ch],
            },
    )
}

/// The values of a universe; one that the frame does not hold is dark.
pub open spec fn values_of(frame: Map<u16, Seq<u8>>, universe: u16) -> Seq<u8> {
    if frame.contains_key(universe) {
        frame[universe]
    } else {
        dmx::dark()
    }
}

/// A frame after a layer was painted over it.
pub open spec fn painted(
    under: Map<u16, Seq<u8>>,
    fade: Fade,
    frame: FrameLevels,
) -> Map<u16, Seq<u8>> {
    if fade is Hidden {
        under
    } else {
        under.union_prefer_right(
            frame.map_entries(
                |u: u16, levels: Levels| painted_universe(values_of(under, u), levels, fade),
            ),
        )
    }
}

/// The layers' priorities, as sort keys.
pub open spec fn priorities(layers: Seq<Layer>) -> Seq<u64> {
    layers.map_values(|l: Layer| l.0 as u64)
}

/// The frame after the first `n` layers of an order were painted, one over the other.
pub open spec fn merged(layers: Seq<Layer>, order: Seq<int>, n: nat) -> Map<u16, Seq<u8>>
    decreases n,
{
    if n == 0 {
        Map::empty()
    } else {
        let top = layers[order[n - 1]];
        painted(merged(layers, order, (n - 1) as nat), top.1, top.2)
    }
}

/// The merge of all layers, painted lowest priority first, ties in their order.
pub open spec fn merge_of(layers: Seq<Layer>) -> Map<u16, Seq<u8>> {
    merged(layers, order::stable_order(priorities(layers)), layers.len())
}

/// Paints one layer.
fn paint(out: &mut DmxFrame, fade: &Fade, frame: &MaskedFrame)
    ensures
        final(out)@ == painted(old(out)@, *fade, frame@),
{
    if let Fade::Hidden = fade {
        return;
    }
    let items = frame.iter();
    let ghost keys = play::universes_of(items@);
    let mut i: usize = 0;
    while i < items.len()
        invariant
            i <= items.len(),
            keys == play::universes_of(items@),
            play::ascending(keys),
            !(*fade is Hidden),
            forall|j: int|
                0 <= j < items@.len() ==> (#[trigger] items@[j]).1@ == frame@[items@[j].0],
            forall|u: u16| #[trigger]
                out@.contains_key(u) <==> old(out)@.contains_key(u) || exists|j: int|
                    0 <= j < i && #[trigger] keys[j] == u,
            forall|j: int|
                0 <= j < i ==> out@[#[trigger] keys[j]] == painted_universe(
                    values_of(old(out)@, keys[j]),
                    frame@[keys[j]],
                    *fade,
                ),
            forall|u: u16| #[trigger]
                old(out)@.contains_key(u) && (forall|j: int| 0 <= j < i ==> #[trigger] keys[j] != u)
                    ==> out@[u] == old(out)@[u],
        decreases items.len() - i,
    {
        let (universe, levels) = items[i];
        assert(keys[i as int] == universe);
        let mut values: Universe = match out.get(universe) {
            Some(values) => *values,
            None => [0; DMX_UNIVERSE_SIZE],
        };
        let ghost under = values@;
        assert(under =~= values_of(old(out)@, universe));
        let mut ch: usize = 0;
        while ch < DMX_UNIVERSE_SIZE
            invariant
                ch <= DMX_UNIVERSE_SIZE,
                values@.len() == DMX_UNIVERSE_SIZE,
                forall|c: int|
                    0 <= c < ch ==> #[trigger] values@[c] == painted_universe(
                        under,
                        levels@,
                        *fade,
                    )[c],
                forall|c: int| ch <= c < DMX_UNIVERSE_SIZE ==> #[trigger] values@[c] == under[c],
            decreases DMX_UNIVERSE_SIZE - ch,
        {
            if levels.owned(ch) {
                values[ch] = fade.apply(values[ch], levels.values()[ch]);
            }
            ch = ch + 1;
        }
        assert(values@ =~= painted_universe(under, levels@, *fade));
        out.put(universe, values);
        i = i + 1;
    }
    proof {
        assert forall|u: u16| frame@.contains_key(u) <==> (exists|j: int|
            0 <= j < i && #[trigger] keys[j] == u) by {
            assert(keys.to_set().contains(u) <==> keys.contains(u));
        }
        assert(out@ =~= painted(old(out)@, *fade, frame@));
    }
}

/// Merges masked layers into a frame that is ready to send.
///
/// Painting runs lowest priority first; equal priorities keep the caller's order
/// (later is on top), which stands in for latest-takes-precedence.
pub fn composite(layers: &[(u8, Fade, &MaskedFrame)]) -> (out: DmxFrame)
    ensures
        out@ == merge_of(layers_of(layers@)),
{
    let ghost views = layers_of(layers@);
    let mut keys: Vec<u64> = Vec::new();
    let mut i: usize = 0;
    while i < layers.len()
        invariant
            i <= layers.len(),
            views == layers_of(layers@),
            keys@ == priorities(views).take(i as int),
        decreases layers.len() - i,
    {
        keys.push(layers[i].0 as u64);
        i = i + 1;
        assert(keys@ =~= priorities(views).take(i as int));
    }
    assert(keys@ =~= priorities(views));
    let order = order_by_key(&keys);
    let mut out = DmxFrame::new();
    let mut n: usize = 0;
    while n < order.len()
        invariant
            n <= order.len(),
            order.len() == layers.len(),
            views == layers_of(layers@),
            keys@ == priorities(views),
            forall|i: int|
                0 <= i < order.len() ==> #[trigger] order@[i] == order::stable_order(
                    keys@,
                )[i] && order@[i] < layers.len(),
            out@ == merged(views, order::stable_order(keys@), n as nat),
        decreases order.len() - n,
    {
        let layer = &layers[order[n]];
        paint(&mut out, &layer.1, layer.2);
        n = n + 1;
    }
    out
}

/// Whether the layer takes part in the merge and owns the channel.
pub open spec fn covers(layer: Layer, universe: u16, ch: int) -> bool {
    !(layer.1 is Hidden) && layer.2.contains_key(universe) && layer.2[universe][ch] is Some
}

/// Whether layer `q` is painted before layer `p`: it has a lower priority, or the same
/// one and an earlier place.
pub open spec fn under(layers: Seq<Layer>, q: int, p: int) -> bool {
    layers[q].0 < layers[p].0 || (layers[q].0 == layers[p].0 && q < p)
}

proof fn lemma_kept(layers: Seq<Layer>, order: Seq<int>, from: nat, n: nat, universe: u16, ch: int)
    requires
        from <= n,
        0 <= ch < DMX_UNIVERSE_SIZE,
        merged(layers, order, from).contains_key(universe),
        forall|i: int| from <= i < n ==> !covers(layers[#[trigger] order[i]], universe, ch),
    ensures
        merged(layers, order, n).contains_key(universe),
        merged(layers, order, n)[universe][ch] == merged(layers, order, from)[universe][ch],
    decreases n - from,
{
    if from < n {
        lemma_kept(layers, order, from, (n - 1) as nat, universe, ch);
        assert(!covers(layers[order[n - 1]], universe, ch));
    }
}

/// Where a layer at full strength owns a channel and no layer that covers the channel
/// is painted after it, the channel has that layer's value: the highest priority wins
/// where it has data, and on equal priorities the later layer.
pub proof fn law_top_layer_wins(layers: Seq<Layer>, p: int, universe: u16, ch: int)
    requires
        0 <= p < layers.len(),
        0 <= ch < DMX_UNIVERSE_SIZE,
        layers[p].1 is Full,
        covers(layers[p], universe, ch),
        forall|q: int|
            0 <= q < layers.len() && q != p && #[trigger] covers(layers[q], universe, ch) ==> under(
                layers,
                q,
                p,
            ),
    ensures
        merge_of(layers).contains_key(universe),
        Some(merge_of(layers)[universe][ch]) == layers[p].2[universe][ch],
{
    let keys = priorities(layers);
    let order = order::stable_order(keys);
    order::law_stable_order(keys);
    assert(order.contains(p));
    let at = choose|i: int| 0 <= i < order.len() && order[i] == p;
    assert forall|i: int| at + 1 <= i < layers.len() implies !covers(
        layers[#[trigger] order[i]],
        universe,
        ch,
    ) by {
        let q = order[i];
        let first = order[at];
        assert(keys[q] == layers[q].0 as u64 && keys[p] == layers[p].0 as u64);
    }
    lemma_kept(layers, order, (at + 1) as nat, layers.len(), universe, ch);
}

/// A channel that no layer covers is 0.
pub proof fn law_uncovered_is_zero(layers: Seq<Layer>, universe: u16, ch: int)
    requires
        0 <= ch < DMX_UNIVERSE_SIZE,
        forall|q: int| 0 <= q < layers.len() ==> !covers(#[trigger] layers[q], universe, ch),
        merge_of(layers).contains_key(universe),
    ensures
        merge_of(layers)[universe][ch] == 0,
{
    let keys = priorities(layers);
    let order = order::stable_order(keys);
    order::law_stable_order(keys);
    assert forall|i: int| 0 <= i < layers.len() implies !covers(
        layers[#[trigger] order[i]],
        universe,
        ch,
    ) by {}
    lemma_uncovered(layers, order, layers.len(), universe, ch);
}

proof fn lemma_uncovered(layers: Seq<Layer>, order: Seq<int>, n: nat, universe: u16, ch: int)
    requires
        0 <= ch < DMX_UNIVERSE_SIZE,
        forall|i: int| 0 <= i < n ==> !covers(layers[#[trigger] order[i]], universe, ch),
        merged(layers, order, n).contains_key(universe),
    ensures
        merged(layers, order, n)[universe][ch] == 0,
    decreases n,
{
    if n > 0 {
        let m = (n - 1) as nat;
        assert(!covers(layers[order[n - 1]], universe, ch));
        if merged(layers, order, m).contains_key(universe) {
            lemma_uncovered(layers, order, m, universe, ch);
        }
    }
}

/// The layers from the bottom of the merge to its top.
pub open spec fn stacked(layers: Seq<Layer>) -> Seq<Layer> {
    Seq::new(
        layers.len(),
        |i: int| layers[order::stable_order(priorities(layers))[i]],
    )
}

/// The frame after the first `n` layers, bottom first, were painted.
pub open spec fn painted_up(stack: Seq<Layer>, n: nat) -> Map<u16, Seq<u8>>
    decreases n,
{
    if n == 0 {
        Map::empty()
    } else {
        painted(painted_up(stack, (n - 1) as nat), stack[n - 1].1, stack[n - 1].2)
    }
}

proof fn lemma_stacked(layers: Seq<Layer>, n: nat)
    requires
        n <= layers.len(),
    ensures
        merged(layers, order::stable_order(priorities(layers)), n) == painted_up(
            stacked(layers),
            n,
        ),
    decreases n,
{
    if n > 0 {
        lemma_stacked(layers, (n - 1) as nat);
    }
}

/// Whether no two layers have the same priority.
pub open spec fn priorities_differ(layers: Seq<Layer>) -> bool {
    forall|i: int, j: int| 0 <= i < j < layers.len() ==> layers[i].0 != layers[j].0
}

proof fn lemma_same_stack(a: Seq<Layer>, b: Seq<Layer>, n: nat)
    requires
        n <= a.len(),
        a.len() == b.len(),
        forall|i: int, j: int| 0 <= i < j < a.len() ==> a[i].0 < a[j].0,
        forall|i: int, j: int| 0 <= i < j < b.len() ==> b[i].0 < b[j].0,
        forall|l: Layer| a.contains(l) <==> b.contains(l),
    ensures
        forall|i: int| 0 <= i < n ==> a[i] == b[i],
    decreases n,
{
    if n > 0 {
        let k = n - 1;
        lemma_same_stack(a, b, k as nat);
        assert(a.contains(a[k]));
        assert(b.contains(b[k]));
        let i = choose|i: int| 0 <= i < b.len() && b[i] == a[k];
        let j = choose|j: int| 0 <= j < a.len() && a[j] == b[k];
        assert(b.contains(a[k]) && a.contains(b[k]));
        if i < k {
            assert(a[i] == b[i]);
        } else if j < k {
            assert(a[j] == b[j]);
        }
    }
}

/// The caller's order does not matter where all priorities differ.
pub proof fn law_order_does_not_matter(a: Seq<Layer>, b: Seq<Layer>)
    requires
        a.len() == b.len(),
        priorities_differ(a),
        priorities_differ(b),
        forall|l: Layer| a.contains(l) <==> b.contains(l),
    ensures
        merge_of(a) == merge_of(b),
{
    lemma_stack(a);
    lemma_stack(b);
    assert forall|l: Layer| stacked(a).contains(l) <==> stacked(b).contains(l) by {
        assert(a.contains(l) <==> b.contains(l));
    }
    lemma_same_stack(stacked(a), stacked(b), a.len());
    assert(stacked(a) =~= stacked(b));
    lemma_stacked(a, a.len());
    lemma_stacked(b, b.len());
}

proof fn lemma_stack(layers: Seq<Layer>)
    requires
        priorities_differ(layers),
    ensures
        forall|i: int, j: int|
            0 <= i < j < layers.len() ==> stacked(layers)[i].0 < stacked(layers)[j].0,
        forall|l: Layer| stacked(layers).contains(l) <==> layers.contains(l),
{
    let keys = priorities(layers);
    let order = order::stable_order(keys);
    let stack = stacked(layers);
    order::law_stable_order(keys);
    assert forall|i: int, j: int| 0 <= i < j < layers.len() implies stack[i].0 < stack[j].0 by {
        let a = order[i];
        let b = order[j];
        assert(keys[a] == layers[a].0 as u64 && keys[b] == layers[b].0 as u64);
    }
    assert forall|l: Layer| stack.contains(l) <==> layers.contains(l) by {
        if stack.contains(l) {
            let i = choose|i: int| 0 <= i < stack.len() && stack[i] == l;
            assert(layers[order[i]] == l);
        }
        if layers.contains(l) {
            let p = choose|p: int| 0 <= p < layers.len() && layers[p] == l;
            assert(order.contains(p));
            let i = choose|i: int| 0 <= i < order.len() && order[i] == p;
            assert(stack[i] == l);
        }
    }
}

/// A stack of layers without one is the stack of the others.
proof fn lemma_removed(layers: Seq<Layer>, p: int) -> (at: int)
    requires
        0 <= p < layers.len(),
    ensures
        0 <= at < layers.len(),
        order::stable_order(priorities(layers))[at] == p,
        stacked(layers)[at] == layers[p],
        stacked(layers.remove(p)) == stacked(layers).remove(at),
{
    let keys = priorities(layers);
    let order = order::stable_order(keys);
    let rest = layers.remove(p);
    order::law_stable_order(keys);
    assert(order.contains(p));
    let at = choose|i: int| 0 <= i < order.len() && order[i] == p;
    order::lemma_order_without(keys, p, at);
    assert(priorities(rest) =~= keys.remove(p));
    assert forall|i: int| 0 <= i < rest.len() implies stacked(rest)[i] == #[trigger] stacked(
        layers,
    ).remove(at)[i] by {
        let k = if i < at {
            i
        } else {
            i + 1
        };
        let q = order[k];
        assert(q != p);
        assert(rest[if q < p {
            q
        } else {
            q - 1
        }] == layers[q]);
    }
    assert(stacked(rest) =~= stacked(layers).remove(at));
    at
}

/// The value of one channel after the first `n` layers, bottom first, were painted.
spec fn channel_up(stack: Seq<Layer>, n: nat, universe: u16, ch: int) -> u8 {
    if painted_up(stack, n).contains_key(universe) {
        painted_up(stack, n)[universe][ch]
    } else {
        0
    }
}

proof fn lemma_channel_up(stack: Seq<Layer>, n: nat, universe: u16, ch: int)
    requires
        0 < n <= stack.len(),
        0 <= ch < DMX_UNIVERSE_SIZE,
    ensures
        covers(stack[n - 1], universe, ch) ==> painted_up(stack, n).contains_key(universe)
            && channel_up(stack, n, universe, ch) == faded(
            stack[n - 1].1,
            channel_up(stack, (n - 1) as nat, universe, ch),
            stack[n - 1].2[universe][ch]->0,
        ),
        !covers(stack[n - 1], universe, ch) ==> channel_up(stack, n, universe, ch) == channel_up(
            stack,
            (n - 1) as nat,
            universe,
            ch,
        ),
        painted_up(stack, (n - 1) as nat).contains_key(universe) ==> painted_up(
            stack,
            n,
        ).contains_key(universe),
{
}

/// What the layers above a place leave of a channel that none of them covers.
proof fn lemma_channel_kept(stack: Seq<Layer>, from: nat, n: nat, universe: u16, ch: int)
    requires
        from <= n <= stack.len(),
        0 <= ch < DMX_UNIVERSE_SIZE,
        forall|i: int| from <= i < n ==> !covers(#[trigger] stack[i], universe, ch),
    ensures
        channel_up(stack, n, universe, ch) == channel_up(stack, from, universe, ch),
        painted_up(stack, from).contains_key(universe) ==> painted_up(stack, n).contains_key(
            universe,
        ),
    decreases n - from,
{
    if from < n {
        lemma_channel_kept(stack, from, (n - 1) as nat, universe, ch);
        lemma_channel_up(stack, n, universe, ch);
    }
}

/// Layers that agree up to a place paint the same up to there.
proof fn lemma_same_base(a: Seq<Layer>, b: Seq<Layer>, n: nat)
    requires
        n <= a.len(),
        n <= b.len(),
        forall|i: int| 0 <= i < n ==> a[i] == b[i],
    ensures
        painted_up(a, n) == painted_up(b, n),
    decreases n,
{
    if n > 0 {
        lemma_same_base(a, b, (n - 1) as nat);
    }
}

/// Stacks that cover a channel with the same layers, in the same order, give it the same
/// value, whatever other layers lie between.
proof fn lemma_channel_above(a: Seq<Layer>, b: Seq<Layer>, at: int, n: nat, universe: u16, ch: int)
    requires
        0 <= at < a.len(),
        b == a.remove(at),
        !covers(a[at], universe, ch),
        at < n <= a.len(),
        0 <= ch < DMX_UNIVERSE_SIZE,
    ensures
        channel_up(a, n, universe, ch) == channel_up(b, (n - 1) as nat, universe, ch),
    decreases n,
{
    lemma_channel_up(a, n, universe, ch);
    if n == at + 1 {
        lemma_same_base(a, b, at as nat);
    } else {
        lemma_channel_above(a, b, at, (n - 1) as nat, universe, ch);
        lemma_channel_up(b, (n - 1) as nat, universe, ch);
        assert(b[n - 2] == a[n - 1]);
    }
}

/// The value of a channel in a merge, 0 where the merge does not hold its universe.
pub open spec fn merged_value(layers: Seq<Layer>, universe: u16, ch: int) -> u8 {
    if merge_of(layers).contains_key(universe) {
        merge_of(layers)[universe][ch]
    } else {
        0
    }
}

proof fn lemma_merged_value(layers: Seq<Layer>, universe: u16, ch: int)
    ensures
        merged_value(layers, universe, ch) == channel_up(
            stacked(layers),
            layers.len(),
            universe,
            ch,
        ),
        merge_of(layers) == painted_up(stacked(layers), layers.len()),
{
    lemma_stacked(layers, layers.len());
}

/// A partly faded layer mixes with what lies under it: where it covers a channel and no
/// layer that covers the channel is painted after it, the channel has the entry that the
/// fade's table holds for the merge of the other layers and the layer's own value, be that
/// value above or below what lies under it. A layer at full strength replaces it.
pub proof fn law_top_layer_mixes(layers: Seq<Layer>, p: int, universe: u16, ch: int)
    requires
        0 <= p < layers.len(),
        0 <= ch < DMX_UNIVERSE_SIZE,
        covers(layers[p], universe, ch),
        forall|q: int|
            0 <= q < layers.len() && q != p && #[trigger] covers(layers[q], universe, ch) ==> under(
                layers,
                q,
                p,
            ),
    ensures
        merge_of(layers).contains_key(universe),
        ({
            let below = merged_value(layers.remove(p), universe, ch);
            let value = layers[p].2[universe][ch]->0;
            match layers[p].1 {
                Fade::Mix(table) => merge_of(layers)[universe][ch] == table@[below * 256 + value],
                Fade::Full => merge_of(layers)[universe][ch] == value,
                Fade::Hidden => false,
            }
        }),
{
    let keys = priorities(layers);
    let order = order::stable_order(keys);
    let stack = stacked(layers);
    let rest = stacked(layers.remove(p));
    let n = layers.len();
    order::law_stable_order(keys);
    let at = lemma_removed(layers, p);
    assert forall|i: int| at < i < n implies !covers(#[trigger] stack[i], universe, ch) by {
        let q = order[i];
        let first = order[at];
        assert(keys[q] == layers[q].0 as u64 && keys[p] == layers[p].0 as u64);
        assert(stack[i] == layers[q]);
    }
    lemma_merged_value(layers, universe, ch);
    lemma_merged_value(layers.remove(p), universe, ch);
    lemma_channel_up(stack, (at + 1) as nat, universe, ch);
    lemma_channel_kept(stack, (at + 1) as nat, n, universe, ch);
    assert forall|i: int| at <= i < n - 1 implies !covers(#[trigger] rest[i], universe, ch) by {
        assert(rest[i] == stack[i + 1]);
    }
    lemma_channel_kept(rest, at as nat, (n - 1) as nat, universe, ch);
    lemma_same_base(stack, rest, at as nat);
}

/// A layer that is hidden, or does not own a channel, has no say in that channel: the merge
/// gives it the value that the other layers give it.
pub proof fn law_other_layers_decide(layers: Seq<Layer>, p: int, universe: u16, ch: int)
    requires
        0 <= p < layers.len(),
        0 <= ch < DMX_UNIVERSE_SIZE,
        layers[p].1 is Hidden || !layers[p].2.contains_key(universe)
            || layers[p].2[universe][ch] is None,
    ensures
        merged_value(layers, universe, ch) == merged_value(layers.remove(p), universe, ch),
{
    let at = lemma_removed(layers, p);
    lemma_merged_value(layers, universe, ch);
    lemma_merged_value(layers.remove(p), universe, ch);
    lemma_channel_above(
        stacked(layers),
        stacked(layers.remove(p)),
        at,
        layers.len(),
        universe,
        ch,
    );
}

proof fn lemma_universe_up(stack: Seq<Layer>, n: nat, universe: u16)
    requires
        n <= stack.len(),
    ensures
        painted_up(stack, n).contains_key(universe) <==> exists|i: int|
            0 <= i < n && !((#[trigger] stack[i]).1 is Hidden) && stack[i].2.contains_key(universe),
        painted_up(stack, n).contains_key(universe) ==> painted_up(stack, n)[universe].len()
            == DMX_UNIVERSE_SIZE,
    decreases n,
{
    if n > 0 {
        lemma_universe_up(stack, (n - 1) as nat, universe);
        let top = stack[n - 1];
        if !(top.1 is Hidden) && top.2.contains_key(universe) {
            assert(stack[n - 1] == top);
        }
    }
}

/// The merge holds exactly the universes of the layers that take part, each whole.
pub proof fn law_merge_holds_the_layers_universes(layers: Seq<Layer>, universe: u16)
    ensures
        merge_of(layers).contains_key(universe) <==> exists|q: int|
            0 <= q < layers.len() && !((#[trigger] layers[q]).1 is Hidden)
                && layers[q].2.contains_key(universe),
        merge_of(layers).contains_key(universe) ==> merge_of(layers)[universe].len() == 512,
{
    let stack = stacked(layers);
    let order = order::stable_order(priorities(layers));
    order::law_stable_order(priorities(layers));
    lemma_stacked(layers, layers.len());
    lemma_universe_up(stack, layers.len(), universe);
    if exists|i: int|
        0 <= i < stack.len() && !((#[trigger] stack[i]).1 is Hidden) && stack[i].2.contains_key(
            universe,
        ) {
        let i = choose|i: int|
            0 <= i < stack.len() && !((#[trigger] stack[i]).1 is Hidden)
                && stack[i].2.contains_key(universe);
        assert(layers[order[i]] == stack[i]);
    }
    if exists|q: int|
        0 <= q < layers.len() && !((#[trigger] layers[q]).1 is Hidden)
            && layers[q].2.contains_key(universe) {
        let q = choose|q: int|
            0 <= q < layers.len() && !((#[trigger] layers[q]).1 is Hidden)
                && layers[q].2.contains_key(universe);
        assert(order.contains(q));
        let i = choose|i: int| 0 <= i < order.len() && order[i] == q;
        assert(stack[i] == layers[q]);
    }
}

} // verus!
