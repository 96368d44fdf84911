//! Caller identities.
//!
//! An identity is the opaque, host-attested byte string that names a caller.
//! The registry never inspects it beyond equality; the single distinguished
//! identity is the anonymous one, which marks burned tokens and can never be
//! a transfer destination.

use vstd::prelude::*;

verus! {

/// The byte representation of the reserved anonymous identity.
pub open spec fn anonymous_bytes() -> Seq<u8> {
    seq![4u8]
}

/// An opaque caller identity, compared only by its bytes.
pub struct Principal {
    bytes: Vec<u8>,
}

impl View for Principal {
    type V = Seq<u8>;

    closed spec fn view(&self) -> Seq<u8> {
        self.bytes@
    }
}

impl Principal {
    /// Wraps a host-attested identity given as its raw bytes.
    pub fn from_bytes(bytes: Vec<u8>) -> (r: Principal)
        ensures
            r@ == bytes@,
    {
        Principal { bytes }
    }

    /// The reserved anonymous identity.
    pub fn anonymous() -> (r: Principal)
        ensures
            r@ == anonymous_bytes(),
    {
        let mut bytes: Vec<u8> = Vec::new();
        bytes.push(4u8);
        proof {
            assert(bytes@ =~= anonymous_bytes());
        }
        Principal { bytes }
    }

    /// The raw bytes of the identity.
    pub fn as_bytes(&self) -> (r: &[u8])
        ensures
            r@ == self@,
    {
        self.bytes.as_slice()
    }

    /// Byte-for-byte equality of two identities.
    pub fn equals(&self, other: &Principal) -> (r: bool)
        ensures
            r == (self@ == other@),
    {
        let n = self.bytes.len();
        if n != other.bytes.len() {
            proof {
                assert(self@ != other@);
            }
            return false;
        }
        let mut i: usize = 0;
        while i < n
            invariant
                n == self@.len(),
                n == other@.len(),
                i <= n,
                forall|j: int| 0 <= j < i ==> self@[j] == other@[j],
            decreases n - i,
        {
            if self.bytes[i] != other.bytes[i] {
                return false;
            }
            i += 1;
        }
        proof {
            assert(self@ =~= other@);
        }
        true
    }

    /// Whether this is the reserved anonymous identity.
    pub fn is_anonymous(&self) -> (r: bool)
        ensures
            r == (self@ == anonymous_bytes()),
    {
        let anon = Principal::anonymous();
        self.equals(&anon)
    }

    /// An owned copy of the identity.
    pub fn duplicate(&self) -> (r: Principal)
        ensures
            r@ == self@,
    {
        Principal { bytes: vstd::slice::slice_to_vec(self.bytes.as_slice()) }
    }
}

} // verus!
