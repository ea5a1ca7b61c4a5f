//! Physical key positions: the fixed, language-independent geometry.

use vstd::prelude::*;

use crate::MAX_EFFORT;
use crate::MAX_SLOTS;

verus! {

/// One physical key site: which hand and finger serve it, where it sits,
/// and its intrinsic effort cost in fixed-point units.
#[derive(Debug, Clone, Copy, PartialEq, Eq, Structural)]
pub struct KeyPos {
    /// 0 for the left hand, 1 for the right hand.
    pub hand: u8,
    /// Finger index within the hand, 0 (pinky) through 4 (thumb).
    pub finger: u8,
    pub row: u8,
    pub col: u8,
    /// Intrinsic cost of pressing this key, at most `MAX_EFFORT`.
    pub effort: u64,
}

/// The ordered set of key positions available for assignment. Immutable
/// reference data for the whole session.
#[derive(Debug, Clone, PartialEq, Eq)]
pub struct Geometry {
    pub keys: Vec<KeyPos>,
}

/// Validity of one key position.
pub open spec fn key_ok(k: KeyPos) -> bool {
    k.hand <= 1 && k.finger <= 4 && k.effort <= MAX_EFFORT
}

impl Geometry {
    /// A geometry is well formed when it has at least one and at most
    /// `MAX_SLOTS` positions, each within the per-key bounds.
    pub open spec fn wf(self) -> bool {
        &&& 1 <= self.keys@.len() <= MAX_SLOTS
        &&& forall|i: int| 0 <= i < self.keys@.len() ==> key_ok(#[trigger] self.keys@[i])
    }

    /// Validates externally supplied geometry data.
    pub fn new(keys: Vec<KeyPos>) -> (r: Result<Geometry, crate::errors::Error>)
        ensures
            r matches Ok(g) ==> g.keys@ == keys@ && g.wf(),
            r is Err ==> !(Geometry { keys }).wf(),
    {
        if keys.len() == 0 || keys.len() > MAX_SLOTS {
            return Err(crate::errors::Error::ParseError);
        }
        let mut i: usize = 0;
        while i < keys.len()
            invariant
                0 <= i <= keys.len(),
                forall|j: int| 0 <= j < i ==> key_ok(#[trigger] keys@[j]),
            decreases keys.len() - i,
        {
            let k = keys[i];
            if !(k.hand <= 1 && k.finger <= 4 && k.effort <= MAX_EFFORT) {
                return Err(crate::errors::Error::ParseError);
            }
            i = i + 1;
        }
        Ok(Geometry { keys })
    }

    /// The number of key positions.
    pub fn slots(&self) -> (r: usize)
        ensures
            r == self.keys@.len(),
    {
        self.keys.len()
    }

    /// An element-wise copy.
    pub fn duplicate(&self) -> (r: Geometry)
        ensures
            r.keys@ == self.keys@,
    {
        let mut out: Vec<KeyPos> = Vec::new();
        let mut i: usize = 0;
        while i < self.keys.len()
            invariant
                0 <= i <= self.keys@.len(),
                out@ =~= self.keys@.take(i as int),
            decreases self.keys@.len() - i,
        {
            out.push(self.keys[i]);
            i = i + 1;
        }
        proof {
            assert(out@ =~= self.keys@);
        }
        Geometry { keys: out }
    }
}

} // verus!
