//! Parameter keys and prefixes.

use vstd::prelude::*;
use vstd::string::StringExecFns;

use crate::mixer::nesting::Name;

verus! {

/// Parameter prefix for the transition effect.
///
/// Fixed rather than keyed by uuid: there is exactly one transition, and a stable
/// prefix means that a binding to its softness survives swapping the shader.
pub const TRANSITION_PREFIX: &'static str = "transition_";

/// The transition's progress parameter, driven from the crossfader each frame.
pub const TRANSITION_PROGRESS: &'static str = "transition_progress";

/// `ch_<uuid>_`
pub open spec fn channel_prefix(uuid: Name) -> Name {
    "ch_"@ + uuid + "_"@
}

/// `grp_<uuid>_`
pub open spec fn group_prefix(uuid: Name) -> Name {
    "grp_"@ + uuid + "_"@
}

/// `<prefix>fx<uuid>_`
pub open spec fn slot_prefix(prefix: Name, uuid: Name) -> Name {
    prefix + "fx"@ + uuid + "_"@
}

/// `a` and `b`, one behind the other.
pub fn join(a: &str, b: &str) -> (s: String)
    ensures
        s@ == a@ + b@,
{
    let mut s = String::from_str(a);
    s.append(b);
    s
}

/// The prefix of a channel's parameters.
pub fn channel_prefix_of(uuid: &str) -> (s: String)
    ensures
        s@ == channel_prefix(uuid@),
{
    join(join("ch_", uuid).as_str(), "_")
}

/// The prefix of a group's parameters.
pub fn group_prefix_of(uuid: &str) -> (s: String)
    ensures
        s@ == group_prefix(uuid@),
{
    join(join("grp_", uuid).as_str(), "_")
}

/// The prefix of the parameters of a chain's slot.
pub fn slot_prefix_of(prefix: &str, uuid: &str) -> (s: String)
    ensures
        s@ == slot_prefix(prefix@, uuid@),
{
    join(join(join(prefix, "fx").as_str(), uuid).as_str(), "_")
}

} // verus!
