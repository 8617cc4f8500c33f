//! Walks over the groups: audibility, depth, ancestors, decks and members.

use vstd::prelude::*;

use crate::mixer::nesting;
use crate::mixer::nesting::{ChannelInfo, GroupInfo, Name};
use crate::mixer::types;
use crate::mixer::types::Mixer;

verus! {

/// Whether two optional names are the same.
pub(crate) fn same_name(a: &Option<String>, b: &Option<String>) -> (same: bool)
    ensures
        same == (types::name_of(*a) == types::name_of(*b)),
{
    match (a, b) {
        (Some(a), Some(b)) => *a == *b,
        (None, None) => true,
        _ => false,
    }
}

/// Whether an optional name is that one.
pub(crate) fn is_name(a: &Option<String>, name: &String) -> (same: bool)
    ensures
        same == (types::name_of(*a) == Some(name@)),
{
    match a {
        Some(a) => *a == *name,
        None => false,
    }
}

/// A copy of an optional name.
pub(crate) fn copy_name(a: &Option<String>) -> (b: Option<String>)
    ensures
        b == *a,
{
    match a {
        Some(a) => Some(a.clone()),
        None => None,
    }
}

proof fn lemma_heard(
    cs: Seq<ChannelInfo>,
    gs: Seq<GroupInfo>,
    name: Name,
    k: nat,
)
    requires
        forall|j: nat| j < k ==> #[trigger] nesting::open_at(cs, gs, name, j),
        nesting::up(gs, Some(name), k) is None || k > gs.len(),
    ensures
        nesting::group_heard(cs, gs, name),
{
    assert forall|j: nat| #[trigger] nesting::open_at(cs, gs, name, j) by {
        if j >= k && nesting::up(gs, Some(name), j) is Some {
            if nesting::up(gs, Some(name), k) is None {
                nesting::lemma_up_ended(gs, Some(name), k, j);
            }
            let m = nesting::lemma_up_bounded(gs, Some(name), j);
            assert(nesting::open_at(cs, gs, name, m));
        }
    }
}

impl<E, M> Mixer<E, M> {
    /// The place of the first group of that name.
    pub(crate) fn find_group(&self, name: &String) -> (r: Option<usize>)
        ensures
            match (r, nesting::group_at(self.group_infos(), name@)) {
                (Some(i), Some(p)) => i == p && i < self.groups@.len(),
                (None, None) => true,
                _ => false,
            },
            r matches Some(i) ==> self.groups@[i as int].uuid@ == name@,
    {
        let ghost gs = self.group_infos();
        let mut i: usize = 0;
        while i < self.groups.len()
            invariant
                i <= self.groups.len(),
                gs == self.group_infos(),
                forall|j: int| 0 <= j < i ==> (#[trigger] gs[j]).uuid != name@,
            decreases self.groups.len() - i,
        {
            assert(gs[i as int].uuid == self.groups@[i as int].uuid@);
            if self.groups[i].uuid == *name {
                proof {
                    nesting::lemma_group_at(gs, name@);
                }
                return Some(i);
            }
            i = i + 1;
        }
        proof {
            nesting::lemma_group_at(gs, name@);
        }
        None
    }

    /// Whether anything is soloed anywhere.
    ///
    /// For hosts that just want to light up an indicator. It is deliberately not what
    /// decides audibility: a solo silences its siblings, not the whole show, so
    /// auditioning a layer on the deck that is prepared does not blank the deck that is
    /// on screen.
    pub fn any_solo(&self) -> (any: bool)
        ensures
            any == ((exists|i: int|
                0 <= i < self.channels@.len() && (#[trigger] self.channels@[i]).solo) || (exists|
                i: int,
            |
                0 <= i < self.groups@.len() && (#[trigger] self.groups@[i]).solo)),
    {
        let mut i: usize = 0;
        while i < self.channels.len()
            invariant
                i <= self.channels.len(),
                forall|j: int| 0 <= j < i ==> !(#[trigger] self.channels@[j]).solo,
            decreases self.channels.len() - i,
        {
            if self.channels[i].solo {
                return true;
            }
            i = i + 1;
        }
        let mut k: usize = 0;
        while k < self.groups.len()
            invariant
                k <= self.groups.len(),
                forall|j: int| 0 <= j < k ==> !(#[trigger] self.groups@[j]).solo,
            decreases self.groups.len() - k,
        {
            if self.groups[k].solo {
                return true;
            }
            k = k + 1;
        }
        false
    }

    /// Whether some direct child of `scope` is soloed; `None` is the top level.
    ///
    /// Solo scopes to siblings. A solo inside one group silences that group's other
    /// members and nothing else; a solo on a top-level group silences the other
    /// top-level groups and the ungrouped layers.
    pub fn solo_active_in(&self, scope: &Option<String>) -> (active: bool)
        ensures
            active == nesting::solo_in(
                self.channel_infos(),
                self.group_infos(),
                types::name_of(*scope),
            ),
    {
        let ghost cs = self.channel_infos();
        let ghost gs = self.group_infos();
        let mut i: usize = 0;
        while i < self.channels.len()
            invariant
                i <= self.channels.len(),
                cs == self.channel_infos(),
                forall|j: int|
                    0 <= j < i ==> !((#[trigger] cs[j]).group == types::name_of(
                        *scope,
                    ) && cs[j].solo),
            decreases self.channels.len() - i,
        {
            let c = &self.channels[i];
            assert(cs[i as int] == c.info());
            if c.solo && same_name(&c.group, scope) {
                return true;
            }
            i = i + 1;
        }
        let mut k: usize = 0;
        while k < self.groups.len()
            invariant
                k <= self.groups.len(),
                gs == self.group_infos(),
                forall|j: int|
                    0 <= j < k ==> !((#[trigger] gs[j]).parent == types::name_of(
                        *scope,
                    ) && gs[j].solo),
            decreases self.groups.len() - k,
        {
            let g = &self.groups[k];
            assert(gs[k as int] == g.info());
            if g.solo && same_name(&g.parent, scope) {
                return true;
            }
            k = k + 1;
        }
        false
    }

    /// Whether a group survives mute and sibling-solo at its own level and at every
    /// level above it. What hangs on a broken or cyclic chain is not hidden for it.
    pub fn group_audible(&self, uuid: &str) -> (audible: bool)
        ensures
            audible == nesting::group_heard(
                self.channel_infos(),
                self.group_infos(),
                uuid@,
            ),
    {
        let ghost cs = self.channel_infos();
        let ghost gs = self.group_infos();
        let mut cur = uuid.to_owned();
        let mut k: usize = 0;
        loop
            invariant
                k <= self.groups.len(),
                cs == self.channel_infos(),
                gs == self.group_infos(),
                nesting::up(gs, Some(uuid@), k as nat) == Some(cur@),
                forall|j: nat|
                    j < k ==> #[trigger] nesting::open_at(cs, gs, uuid@, j),
            decreases self.groups.len() - k,
        {
            match self.find_group(&cur) {
                None => {
                    proof {
                        assert(nesting::open_at(cs, gs, uuid@, k as nat));
                        lemma_heard(cs, gs, uuid@, (k + 1) as nat);
                    }
                    return true;
                },
                Some(i) => {
                    let g = &self.groups[i];
                    assert(gs[i as int] == g.info());
                    if g.mute || (self.solo_active_in(&g.parent) && !g.solo) {
                        assert(!nesting::open_at(cs, gs, uuid@, k as nat));
                        return false;
                    }
                    assert(nesting::open_at(cs, gs, uuid@, k as nat));
                    match &g.parent {
                        None => {
                            proof {
                                lemma_heard(cs, gs, uuid@, (k + 1) as nat);
                            }
                            return true;
                        },
                        Some(p) => {
                            cur = p.clone();
                        },
                    }
                },
            }
            if k == self.groups.len() {
                proof {
                    lemma_heard(cs, gs, uuid@, (k + 1) as nat);
                }
                return true;
            }
            k = k + 1;
        }
    }

    /// How many groups deep a group sits: 0 for top level; `None` when the parent chain
    /// is broken (a missing parent) or cyclic. The walk is bounded by the group count,
    /// so a cycle ends it.
    pub fn group_depth(&self, uuid: &str) -> (r: Option<usize>)
        ensures
            match (r, nesting::depth(self.group_infos(), uuid@)) {
                (Some(d), Some(e)) => d == e && d < self.groups@.len(),
                (None, None) => true,
                _ => false,
            },
    {
        let ghost gs = self.group_infos();
        let mut cur = uuid.to_owned();
        let mut d: usize = 0;
        loop
            invariant
                d <= self.groups.len(),
                gs == self.group_infos(),
                nesting::up(gs, Some(uuid@), d as nat) == Some(cur@),
                forall|e: nat|
                    e < d ==> !#[trigger] nesting::sits_at(gs, uuid@, e),
            decreases self.groups.len() - d,
        {
            match self.find_group(&cur) {
                None => {
                    proof {
                        lemma_no_depth(gs, uuid@, d as nat);
                    }
                    return None;
                },
                Some(i) => {
                    assert(gs[i as int] == self.groups@[i as int].info());
                    match &self.groups[i].parent {
                        None => {
                            assert(nesting::sits_at(gs, uuid@, d as nat));
                            proof {
                                nesting::lemma_depth_unique(gs, uuid@, d as nat);
                            }
                            return Some(d);
                        },
                        Some(p) => {
                            assert(!nesting::sits_at(gs, uuid@, d as nat));
                            cur = p.clone();
                        },
                    }
                },
            }
            if d == self.groups.len() {
                proof {
                    assert forall|e: nat| !#[trigger]
                        nesting::sits_at(gs, uuid@, e) by {
                        if nesting::sits_at(gs, uuid@, e) {
                            nesting::lemma_depth_unique(gs, uuid@, e);
                        }
                    }
                }
                return None;
            }
            d = d + 1;
        }
    }

    /// The outermost group around a group; itself when it is top level.
    pub fn top_level_ancestor(&self, uuid: &str) -> (top: String)
        ensures
            top@ == nesting::outermost(self.group_infos(), uuid@),
    {
        let ghost gs = self.group_infos();
        let mut cur = uuid.to_owned();
        match self.group_depth(uuid) {
            None => cur,
            Some(depth) => {
                let mut k: usize = 0;
                proof {
                    lemma_sits(gs, uuid@);
                }
                while k < depth
                    invariant
                        k <= depth,
                        gs == self.group_infos(),
                        nesting::sits_at(gs, uuid@, depth as nat),
                        nesting::up(gs, Some(uuid@), k as nat) == Some(cur@),
                    decreases depth - k,
                {
                    proof {
                        if nesting::up(gs, Some(uuid@), (k + 1) as nat) is None {
                            nesting::lemma_up_ended(
                                gs,
                                Some(uuid@),
                                (k + 1) as nat,
                                depth as nat,
                            );
                        }
                    }
                    if let Some(i) = self.find_group(&cur) {
                        assert(gs[i as int] == self.groups@[i as int].info());
                        if let Some(p) = &self.groups[i].parent {
                            cur = p.clone();
                        }
                    }
                    k = k + 1;
                }
                cur
            },
        }
    }
}

proof fn lemma_no_depth(gs: Seq<GroupInfo>, name: Name, d: nat)
    requires
        forall|e: nat| e < d ==> !#[trigger] nesting::sits_at(gs, name, e),
        nesting::up(gs, Some(name), d) matches Some(a)
            && nesting::group_at(gs, a) is None,
    ensures
        nesting::depth(gs, name) is None,
{
    assert forall|e: nat| !#[trigger] nesting::sits_at(gs, name, e) by {
        if e > d {
            nesting::lemma_up_ended(gs, Some(name), d + 1, e);
        }
    }
}

proof fn lemma_sits(gs: Seq<GroupInfo>, name: Name)
    ensures
        nesting::depth(gs, name) matches Some(d) ==> nesting::sits_at(
            gs,
            name,
            d,
        ),
{
}

} // verus!
