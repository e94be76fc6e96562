//! Content addresses of entries, anchors and link handles.

use vstd::prelude::*;

verus! {

/// A content address: the full bytes of a hash, type prefix included. Two
/// addresses name the same thing exactly when their bytes agree.
#[derive(Debug, PartialEq, Eq)]
pub struct Address {
    pub raw: Vec<u8>,
}

impl View for Address {
    type V = Seq<u8>;

    open spec fn view(&self) -> Seq<u8> {
        self.raw@
    }
}

impl DeepView for Address {
    type V = Seq<u8>;

    open spec fn deep_view(&self) -> Seq<u8> {
        self.raw@
    }
}

impl Clone for Address {
    fn clone(&self) -> (copy: Self)
        ensures
            copy@ == self@,
    {
        Address { raw: self.raw.clone() }
    }
}

impl Address {
    /// Tells whether two addresses name the same thing.
    pub fn same_as(&self, other: &Address) -> (same: bool)
        ensures
            same == (self@ == other@),
    {
        if self.raw.len() != other.raw.len() {
            return false;
        }
        let mut i: usize = 0;
        while i < self.raw.len()
            invariant
                i <= self.raw.len(),
                self.raw.len() == other.raw.len(),
                forall|j: int| 0 <= j < i ==> self.raw[j] == other.raw[j],
            decreases self.raw.len() - i,
        {
            if self.raw[i] != other.raw[i] {
                return false;
            }
            i += 1;
        }
        assert(self@ =~= other@);
        true
    }
}

} // verus!
