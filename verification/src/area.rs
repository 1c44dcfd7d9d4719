//! Area types of spans.

use vstd::prelude::*;

verus! {

/// An identifier for the area type of a span.
/// The values 0 ([`AreaType::NOT_WALKABLE`]) and [`u8::MAX`] ([`AreaType::DEFAULT_WALKABLE`]) are reserved.
/// The rest can be used for custom area types to e.g. assign different costs to different areas.
/// When two spans are merged, the area type of the merged span is the maximum of the two area types.
#[derive(Debug, Clone, Copy, PartialEq, Eq, Hash, Structural)]
pub struct AreaType(pub u8);

impl AreaType {
    /// The area type 0. Triangles with this area type are not walkable.
    /// All other area types are walkable.
    pub fn not_walkable() -> (r: AreaType)
        ensures
            r.0 == 0,
    {
        AreaType(0)
    }

    /// Default area type for walkable triangles. The highest possible area type.
    pub fn default_walkable() -> (r: AreaType)
        ensures
            r.0 == 255,
    {
        AreaType(255)
    }

    /// Whether a span of this area can be walked on.
    pub open spec fn spec_is_walkable(&self) -> bool {
        self.0 != 0
    }

    /// Returns `true` for every area type but [`AreaType::NOT_WALKABLE`].
    #[verifier::when_used_as_spec(spec_is_walkable)]
    pub fn is_walkable(&self) -> (r: bool)
        ensures
            r == self.spec_is_walkable(),
    {
        self.0 != 0
    }

    /// The higher of two area types, which wins when spans are merged.
    pub open spec fn spec_max(self, other: u8) -> AreaType {
        if self.0 >= other {
            self
        } else {
            AreaType(other)
        }
    }

    /// Returns the area type with the higher id of `self` and `other`.
    pub fn max(self, other: u8) -> (r: AreaType)
        ensures
            r == self.spec_max(other),
    {
        if self.0 >= other {
            self
        } else {
            AreaType(other)
        }
    }
}

impl Default for AreaType {
    fn default() -> (r: AreaType)
        ensures
            r.0 == 0,
    {
        AreaType(0)
    }
}

impl From<u8> for AreaType {
    fn from(value: u8) -> (r: AreaType) {
        AreaType(value)
    }
}

impl vstd::std_specs::convert::FromSpecImpl<u8> for AreaType {
    open spec fn obeys_from_spec() -> bool {
        true
    }

    open spec fn from_spec(value: u8) -> AreaType {
        AreaType(value)
    }
}

} // verus!
