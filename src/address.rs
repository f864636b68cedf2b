//! Addresses of principals on the MANY protocol.
use crate::error::{ErrorKind, ManyError};
use vstd::prelude::*;

verus! {

/// Bytes in an address.
pub const ADDRESS_LEN: usize = 32;

/// Leading bytes of an address that name the principal; the rest is the subaddress.
pub const PRINCIPAL_LEN: usize = 28;

/// The bytes of the anonymous address: all zero.
pub open spec fn anonymous_bytes() -> Seq<u8> {
    Seq::new(32, |i: int| 0u8)
}

/// Two addresses refer to the same principal when their principal bytes agree.
pub open spec fn same_principal(a: Seq<u8>, b: Seq<u8>) -> bool {
    a.subrange(0, 28) == b.subrange(0, 28)
}

/// An opaque 32-byte identifier.
#[derive(Clone, Copy, Debug, PartialEq, Eq)]
pub struct Address {
    pub bytes: [u8; 32],
}

impl View for Address {
    type V = Seq<u8>;

    open spec fn view(&self) -> Seq<u8> {
        self.bytes@
    }
}

impl Address {
    pub fn anonymous() -> (r: Address)
        ensures
            r@ == anonymous_bytes(),
    {
        let r = Address { bytes: [0u8; 32] };
        assert(r@ =~= anonymous_bytes());
        r
    }

    pub fn is_anonymous(&self) -> (r: bool)
        ensures
            r == (self@ == anonymous_bytes()),
    {
        let mut i: usize = 0;
        while i < ADDRESS_LEN
            invariant
                i <= 32,
                self@.len() == 32,
                forall|j: int| 0 <= j < i ==> self@[j] == 0u8,
            decreases 32 - i,
        {
            if self.bytes[i] != 0u8 {
                assert(self@[i as int] != anonymous_bytes()[i as int]);
                return false;
            }
            i = i + 1;
        }
        assert(self@ =~= anonymous_bytes());
        true
    }

    /// True when both addresses name the same principal, whatever their subaddresses.
    pub fn matches(&self, other: &Address) -> (r: bool)
        ensures
            r == same_principal(self@, other@),
    {
        let mut i: usize = 0;
        while i < PRINCIPAL_LEN
            invariant
                i <= 28,
                self@.len() == 32,
                other@.len() == 32,
                forall|j: int| 0 <= j < i ==> self@[j] == other@[j],
            decreases 28 - i,
        {
            if self.bytes[i] != other.bytes[i] {
                assert(self@.subrange(0, 28)[i as int] != other@.subrange(0, 28)[i as int]);
                return false;
            }
            i = i + 1;
        }
        assert(self@.subrange(0, 28) =~= other@.subrange(0, 28));
        true
    }

    /// Reads an address from its bytes; fails unless there are exactly 32.
    pub fn from_bytes(b: &[u8]) -> (r: Result<Address, ManyError>)
        ensures
            b@.len() == 32 <==> r is Ok,
            r matches Ok(a) ==> a@ == b@,
            r matches Err(e) ==> e@ == (ErrorKind::DeserializationError, "Invalid address length."@),
    {
        if b.len() != ADDRESS_LEN {
            return Err(ManyError::new(ErrorKind::DeserializationError, "Invalid address length."));
        }
        let mut bytes = [0u8; 32];
        let mut i: usize = 0;
        while i < ADDRESS_LEN
            invariant
                i <= 32,
                b@.len() == 32,
                bytes@.len() == 32,
                forall|j: int| 0 <= j < i ==> bytes@[j] == b@[j],
            decreases 32 - i,
        {
            bytes[i] = b[i];
            i = i + 1;
        }
        let a = Address { bytes };
        assert(a@ =~= b@);
        Ok(a)
    }

    pub fn to_vec(&self) -> (r: Vec<u8>)
        ensures
            r@ == self@,
    {
        let mut v: Vec<u8> = Vec::new();
        let mut i: usize = 0;
        while i < ADDRESS_LEN
            invariant
                i <= 32,
                self@.len() == 32,
                v@ == self@.subrange(0, i as int),
            decreases 32 - i,
        {
            v.push(self.bytes[i]);
            i = i + 1;
            assert(v@ =~= self@.subrange(0, i as int));
        }
        assert(self@.subrange(0, 32) =~= self@);
        v
    }
}

} // verus!
