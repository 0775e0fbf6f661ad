//! Release versions, ordered by major, then minor, then patch.
use vstd::prelude::*;
use std::cmp::Ordering;

verus! {

/// A version as major, minor and patch numbers.
#[derive(Debug, Clone, Copy, PartialEq, Eq, Structural)]
pub struct Version(pub u32, pub u32, pub u32);

/// How `a` compares with `b` when compared by `a.0`, then `a.1`, then `a.2`.
pub open spec fn version_order(a: Version, b: Version) -> Ordering {
    if a.0 != b.0 {
        if a.0 < b.0 { Ordering::Less } else { Ordering::Greater }
    } else if a.1 != b.1 {
        if a.1 < b.1 { Ordering::Less } else { Ordering::Greater }
    } else if a.2 != b.2 {
        if a.2 < b.2 { Ordering::Less } else { Ordering::Greater }
    } else {
        Ordering::Equal
    }
}

impl PartialOrd for Version {
    fn partial_cmp(&self, other: &Self) -> (r: Option<Ordering>)
        ensures
            r == Some(version_order(*self, *other)),
    {
        if self.0 > other.0 {
            return Some(Ordering::Greater);
        }
        if self.0 < other.0 {
            return Some(Ordering::Less);
        }
        if self.1 > other.1 {
            return Some(Ordering::Greater);
        }
        if self.1 < other.1 {
            return Some(Ordering::Less);
        }
        if self.2 > other.2 {
            return Some(Ordering::Greater);
        }
        if self.2 < other.2 {
            return Some(Ordering::Less);
        }
        Some(Ordering::Equal)
    }
}

impl vstd::std_specs::cmp::PartialOrdSpecImpl for Version {
    open spec fn obeys_partial_cmp_spec() -> bool {
        true
    }

    open spec fn partial_cmp_spec(&self, other: &Version) -> Option<Ordering> {
        Some(version_order(*self, *other))
    }
}

} // verus!
