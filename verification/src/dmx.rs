//! DMX universes and the wire-ready frame.

use std::collections::BTreeMap;
use vstd::prelude::*;

verus! {

broadcast use vstd::std_specs::btree::group_btree_axioms;

/// Channels in one DMX universe.
pub const DMX_UNIVERSE_SIZE: usize = 512;

/// One universe of channel values.
pub type Universe = [u8; DMX_UNIVERSE_SIZE];

/// A universe with every channel at 0.
pub open spec fn dark() -> Seq<u8> {
    Seq::new(DMX_UNIVERSE_SIZE as nat, |i: int| 0u8)
}

/// A sparse set of universes, ready to be sent.
#[derive(Debug, Clone)]
pub struct DmxFrame {
    universes: BTreeMap<u16, Universe>,
}

impl View for DmxFrame {
    type V = Map<u16, Seq<u8>>;

    closed spec fn view(&self) -> Map<u16, Seq<u8>> {
        self.universes@.map_values(|u: Universe| u@)
    }
}

impl DmxFrame {
    /// An empty frame.
    pub fn new() -> (frame: DmxFrame)
        ensures
            frame@ == Map::<u16, Seq<u8>>::empty(),
    {
        let frame = DmxFrame { universes: BTreeMap::new() };
        assert(frame@ =~= Map::<u16, Seq<u8>>::empty());
        frame
    }

    /// The values of one universe, if the frame holds it.
    pub fn get(&self, universe: u16) -> (values: Option<&Universe>)
        ensures
            values is Some <==> self@.contains_key(universe),
            values matches Some(v) ==> v@ == self@[universe],
    {
        self.universes.get(&universe)
    }

    /// Puts one universe's values into the frame, in place of any it held.
    pub fn put(&mut self, universe: u16, values: Universe)
        ensures
            final(self)@ == old(self)@.insert(universe, values@),
    {
        self.universes.insert(universe, values);
        assert(self@ =~= old(self)@.insert(universe, values@));
    }
}

/// A dark universe is 512 channels at zero.
pub proof fn law_dark_is_zero(ch: int)
    requires
        0 <= ch < 512,
    ensures
        dark().len() == 512,
        dark()[ch] == 0,
{
}

} // verus!
