//! Models of the cryptographic identity values that run through the
//! endpoint logic.
//!
//! An identity is a 32-byte public value derived from an ed25519 key; a
//! secret is the 32-byte private counterpart; an address is the public
//! value under which publishers and subscribers rendezvous at a broker.
//! Deriving, parsing and printing them is the business of the identity
//! layer outside this crate: here they are opaque byte strings whose only
//! verified operation is comparison.

use vstd::prelude::*;

verus! {

/// Number of bytes in an identity, a secret, and an address.
pub const IDENTITY_LEN: usize = 32;

/// A peer's public identity.
#[derive(Debug)]
pub struct Identity {
    bytes: Vec<u8>,
}

impl View for Identity {
    type V = Seq<u8>;

    closed spec fn view(&self) -> Seq<u8> {
        self.bytes@
    }
}

impl Identity {
    pub open spec fn wf(&self) -> bool {
        self@.len() == IDENTITY_LEN
    }

    pub fn from_bytes(bytes: Vec<u8>) -> (r: Self)
        requires
            bytes@.len() == IDENTITY_LEN,
        ensures
            r@ == bytes@,
            r.wf(),
    {
        Identity { bytes }
    }

    pub fn as_bytes(&self) -> (r: &Vec<u8>)
        ensures
            r@ == self@,
    {
        &self.bytes
    }

    /// Constant-structure comparison of two identities.
    pub fn same(&self, other: &Identity) -> (r: bool)
        ensures
            r == (self@ =~= other@),
    {
        bytes_eq(&self.bytes, &other.bytes)
    }

    /// An owned copy of the identity's bytes, as embedded in broker
    /// messages.
    pub fn to_owned_bytes(&self) -> (r: Vec<u8>)
        ensures
            r@ == self@,
    {
        bytes_copy(&self.bytes)
    }

    /// Whether this identity is the one spelled by `raw`, as embedded in a
    /// broker message.
    pub fn matches_bytes(&self, raw: &Vec<u8>) -> (r: bool)
        ensures
            r == (self@ =~= raw@),
    {
        bytes_eq(&self.bytes, raw)
    }
}

/// A private key. Opaque here: the endpoint only stores and hands it to
/// the handshake layer.
#[derive(Debug)]
pub struct Secret {
    bytes: Vec<u8>,
}

impl View for Secret {
    type V = Seq<u8>;

    closed spec fn view(&self) -> Seq<u8> {
        self.bytes@
    }
}

impl Secret {
    pub open spec fn wf(&self) -> bool {
        self@.len() == IDENTITY_LEN
    }

    pub fn from_bytes(bytes: Vec<u8>) -> (r: Self)
        requires
            bytes@.len() == IDENTITY_LEN,
        ensures
            r@ == bytes@,
            r.wf(),
    {
        Secret { bytes }
    }
}

/// An address-like rendezvous identifier (a "shadow").
#[derive(Debug)]
pub struct Address {
    bytes: Vec<u8>,
}

impl View for Address {
    type V = Seq<u8>;

    closed spec fn view(&self) -> Seq<u8> {
        self.bytes@
    }
}

impl Address {
    pub fn from_bytes(bytes: Vec<u8>) -> (r: Self)
        ensures
            r@ == bytes@,
    {
        Address { bytes }
    }

    pub fn as_bytes(&self) -> (r: &Vec<u8>)
        ensures
            r@ == self@,
    {
        &self.bytes
    }
}

/// Element-wise equality of two byte strings.
pub fn bytes_eq(a: &Vec<u8>, b: &Vec<u8>) -> (r: bool)
    ensures
        r == (a@ =~= b@),
{
    if a.len() != b.len() {
        return false;
    }
    let mut i: usize = 0;
    while i < a.len()
        invariant
            i <= a@.len(),
            a@.len() == b@.len(),
            forall|k: int| 0 <= k < i ==> a@[k] == b@[k],
        decreases a@.len() - i,
    {
        if a[i] != b[i] {
            return false;
        }
        i = i + 1;
    }
    true
}

impl Clone for Identity {
    fn clone(&self) -> (r: Self)
        ensures
            r@ == self@,
    {
        Identity { bytes: bytes_copy(&self.bytes) }
    }
}

impl Clone for Secret {
    fn clone(&self) -> (r: Self)
        ensures
            r@ == self@,
    {
        Secret { bytes: bytes_copy(&self.bytes) }
    }
}

impl Clone for Address {
    fn clone(&self) -> (r: Self)
        ensures
            r@ == self@,
    {
        Address { bytes: bytes_copy(&self.bytes) }
    }
}

/// An owned copy of a byte string.
pub fn bytes_copy(v: &Vec<u8>) -> (r: Vec<u8>)
    ensures
        r@ == v@,
{
    let mut out: Vec<u8> = Vec::new();
    let mut i: usize = 0;
    while i < v.len()
        invariant
            i <= v@.len(),
            out@ == v@.take(i as int),
        decreases v@.len() - i,
    {
        out.push(v[i]);
        proof {
            assert(out@ =~= v@.take(i + 1));
        }
        i = i + 1;
    }
    proof {
        assert(v@.take(v@.len() as int) =~= v@);
    }
    out
}

} // verus!
