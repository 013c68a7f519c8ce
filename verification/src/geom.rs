//! Points and displacements on the integer plane.

use vstd::prelude::*;

verus! {

/// A location in the plane.
#[derive(Copy, Clone, Debug, PartialEq, Eq, Structural)]
pub struct P2 {
    pub x: i64,
    pub y: i64,
}

/// A displacement in the plane: a size, or a velocity in sub-units per second.
#[derive(Copy, Clone, Debug, PartialEq, Eq, Structural)]
pub struct V2 {
    pub x: i64,
    pub y: i64,
}

impl P2 {
    pub fn new(x: i64, y: i64) -> (p: P2)
        ensures
            p == (P2 { x, y }),
    {
        P2 { x, y }
    }

    pub fn zero() -> (p: P2)
        ensures
            p == (P2 { x: 0, y: 0 }),
    {
        P2::new(0, 0)
    }

    /// Both coordinates are zero.
    pub open spec fn spec_is_zero(self) -> bool {
        self.x == 0 && self.y == 0
    }

    #[verifier::when_used_as_spec(spec_is_zero)]
    pub fn is_zero(self) -> (r: bool)
        ensures
            r == self.spec_is_zero(),
    {
        self.x == 0 && self.y == 0
    }
}

impl Default for P2 {
    fn default() -> (p: P2)
        ensures
            p == (P2 { x: 0, y: 0 }),
    {
        P2::zero()
    }
}

impl V2 {
    pub fn new(x: i64, y: i64) -> (v: V2)
        ensures
            v == (V2 { x, y }),
    {
        V2 { x, y }
    }

    pub fn zero() -> (v: V2)
        ensures
            v == (V2 { x: 0, y: 0 }),
    {
        V2::new(0, 0)
    }

    /// Both components are zero.
    pub open spec fn spec_is_zero(self) -> bool {
        self.x == 0 && self.y == 0
    }

    #[verifier::when_used_as_spec(spec_is_zero)]
    pub fn is_zero(self) -> (r: bool)
        ensures
            r == self.spec_is_zero(),
    {
        self.x == 0 && self.y == 0
    }
}

impl Default for V2 {
    fn default() -> (v: V2)
        ensures
            v == (V2 { x: 0, y: 0 }),
    {
        V2::zero()
    }
}

impl From<(i64, i64)> for P2 {
    fn from(pair: (i64, i64)) -> (p: P2) {
        P2 { x: pair.0, y: pair.1 }
    }
}

impl vstd::std_specs::convert::FromSpecImpl<(i64, i64)> for P2 {
    open spec fn obeys_from_spec() -> bool {
        true
    }

    open spec fn from_spec(pair: (i64, i64)) -> P2 {
        P2 { x: pair.0, y: pair.1 }
    }
}

impl From<[i64; 2]> for P2 {
    fn from(pair: [i64; 2]) -> (p: P2) {
        P2 { x: pair[0], y: pair[1] }
    }
}

impl vstd::std_specs::convert::FromSpecImpl<[i64; 2]> for P2 {
    open spec fn obeys_from_spec() -> bool {
        true
    }

    open spec fn from_spec(pair: [i64; 2]) -> P2 {
        P2 { x: pair[0], y: pair[1] }
    }
}

impl From<V2> for P2 {
    /// The point that lies `vec` from the origin.
    fn from(vec: V2) -> (p: P2) {
        P2 { x: vec.x, y: vec.y }
    }
}

impl vstd::std_specs::convert::FromSpecImpl<V2> for P2 {
    open spec fn obeys_from_spec() -> bool {
        true
    }

    open spec fn from_spec(vec: V2) -> P2 {
        P2 { x: vec.x, y: vec.y }
    }
}

impl From<(i64, i64)> for V2 {
    fn from(pair: (i64, i64)) -> (v: V2) {
        V2 { x: pair.0, y: pair.1 }
    }
}

impl vstd::std_specs::convert::FromSpecImpl<(i64, i64)> for V2 {
    open spec fn obeys_from_spec() -> bool {
        true
    }

    open spec fn from_spec(pair: (i64, i64)) -> V2 {
        V2 { x: pair.0, y: pair.1 }
    }
}

impl From<[i64; 2]> for V2 {
    fn from(pair: [i64; 2]) -> (v: V2) {
        V2 { x: pair[0], y: pair[1] }
    }
}

impl vstd::std_specs::convert::FromSpecImpl<[i64; 2]> for V2 {
    open spec fn obeys_from_spec() -> bool {
        true
    }

    open spec fn from_spec(pair: [i64; 2]) -> V2 {
        V2 { x: pair[0], y: pair[1] }
    }
}

impl From<P2> for V2 {
    /// The displacement from the origin to `pt`.
    fn from(pt: P2) -> (v: V2) {
        V2 { x: pt.x, y: pt.y }
    }
}

impl vstd::std_specs::convert::FromSpecImpl<P2> for V2 {
    open spec fn obeys_from_spec() -> bool {
        true
    }

    open spec fn from_spec(pt: P2) -> V2 {
        V2 { x: pt.x, y: pt.y }
    }
}

} // verus!
