//! Big-endian integer layouts shared by the packet and frame codecs.
//!
//! Every multi-byte integer on the wire is big-endian. The spec functions
//! here give the byte image of a value and the value of a byte group, and
//! the lemmas show that the two directions invert each other.

use vstd::prelude::*;

verus! {

// -- value -> bytes -----------------------------------------------------

pub open spec fn spec_be_u16(v: u16) -> Seq<u8> {
    seq![((v >> 8) & 0xff) as u8, (v & 0xff) as u8]
}

pub open spec fn spec_be_u32(v: u32) -> Seq<u8> {
    seq![
        ((v >> 24) & 0xff) as u8,
        ((v >> 16) & 0xff) as u8,
        ((v >> 8) & 0xff) as u8,
        (v & 0xff) as u8,
    ]
}

pub open spec fn spec_be_u64(v: u64) -> Seq<u8> {
    seq![
        ((v >> 56) & 0xff) as u8,
        ((v >> 48) & 0xff) as u8,
        ((v >> 40) & 0xff) as u8,
        ((v >> 32) & 0xff) as u8,
        ((v >> 24) & 0xff) as u8,
        ((v >> 16) & 0xff) as u8,
        ((v >> 8) & 0xff) as u8,
        (v & 0xff) as u8,
    ]
}

// -- bytes -> value -----------------------------------------------------

pub open spec fn be16(b0: u8, b1: u8) -> u16 {
    ((b0 as u16) << 8) | (b1 as u16)
}

pub open spec fn be32(b0: u8, b1: u8, b2: u8, b3: u8) -> u32 {
    ((b0 as u32) << 24) | ((b1 as u32) << 16) | ((b2 as u32) << 8) | (b3 as u32)
}

pub open spec fn be64(b0: u8, b1: u8, b2: u8, b3: u8, b4: u8, b5: u8, b6: u8, b7: u8) -> u64 {
    ((b0 as u64) << 56) | ((b1 as u64) << 48) | ((b2 as u64) << 40) | ((b3 as u64) << 32)
        | ((b4 as u64) << 24) | ((b5 as u64) << 16) | ((b6 as u64) << 8) | (b7 as u64)
}

// -- the two directions invert each other -------------------------------

pub proof fn lemma_be16_of_bytes(v: u16)
    ensures
        be16(spec_be_u16(v)[0], spec_be_u16(v)[1]) == v,
{
    assert(((((v >> 8) & 0xff) as u8) as u16) << 8 | ((v & 0xff) as u8) as u16 == v)
        by (bit_vector);
}

pub proof fn lemma_be16_to_bytes(b0: u8, b1: u8)
    ensures
        spec_be_u16(be16(b0, b1)) =~= seq![b0, b1],
{
    let v = be16(b0, b1);
    assert((((b0 as u16) << 8 | (b1 as u16)) >> 8) & 0xff == b0 as u16) by (bit_vector);
    assert(((b0 as u16) << 8 | (b1 as u16)) & 0xff == b1 as u16) by (bit_vector);
}

pub proof fn lemma_be32_of_bytes(v: u32)
    ensures
        be32(
            spec_be_u32(v)[0],
            spec_be_u32(v)[1],
            spec_be_u32(v)[2],
            spec_be_u32(v)[3],
        ) == v,
{
    assert(((((v >> 24) & 0xff) as u8) as u32) << 24
        | ((((v >> 16) & 0xff) as u8) as u32) << 16
        | ((((v >> 8) & 0xff) as u8) as u32) << 8
        | (((v & 0xff) as u8) as u32) == v) by (bit_vector);
}

pub proof fn lemma_be32_to_bytes(b0: u8, b1: u8, b2: u8, b3: u8)
    ensures
        spec_be_u32(be32(b0, b1, b2, b3)) =~= seq![b0, b1, b2, b3],
{
    let v = be32(b0, b1, b2, b3);
    assert({
        let v = ((b0 as u32) << 24) | ((b1 as u32) << 16) | ((b2 as u32) << 8) | (b3 as u32);
        (v >> 24) & 0xff == b0 as u32 && (v >> 16) & 0xff == b1 as u32
            && (v >> 8) & 0xff == b2 as u32 && v & 0xff == b3 as u32
    }) by (bit_vector);
}

pub proof fn lemma_be64_of_bytes(v: u64)
    ensures
        be64(
            spec_be_u64(v)[0],
            spec_be_u64(v)[1],
            spec_be_u64(v)[2],
            spec_be_u64(v)[3],
            spec_be_u64(v)[4],
            spec_be_u64(v)[5],
            spec_be_u64(v)[6],
            spec_be_u64(v)[7],
        ) == v,
{
    assert(((((v >> 56) & 0xff) as u8) as u64) << 56
        | ((((v >> 48) & 0xff) as u8) as u64) << 48
        | ((((v >> 40) & 0xff) as u8) as u64) << 40
        | ((((v >> 32) & 0xff) as u8) as u64) << 32
        | ((((v >> 24) & 0xff) as u8) as u64) << 24
        | ((((v >> 16) & 0xff) as u8) as u64) << 16
        | ((((v >> 8) & 0xff) as u8) as u64) << 8
        | (((v & 0xff) as u8) as u64) == v) by (bit_vector);
}

pub proof fn lemma_be64_to_bytes(b0: u8, b1: u8, b2: u8, b3: u8, b4: u8, b5: u8, b6: u8, b7: u8)
    ensures
        spec_be_u64(be64(b0, b1, b2, b3, b4, b5, b6, b7)) =~= seq![b0, b1, b2, b3, b4, b5, b6, b7],
{
    assert({
        let v = ((b0 as u64) << 56) | ((b1 as u64) << 48) | ((b2 as u64) << 40)
            | ((b3 as u64) << 32) | ((b4 as u64) << 24) | ((b5 as u64) << 16)
            | ((b6 as u64) << 8) | (b7 as u64);
        (v >> 56) & 0xff == b0 as u64 && (v >> 48) & 0xff == b1 as u64
            && (v >> 40) & 0xff == b2 as u64 && (v >> 32) & 0xff == b3 as u64
            && (v >> 24) & 0xff == b4 as u64 && (v >> 16) & 0xff == b5 as u64
            && (v >> 8) & 0xff == b6 as u64 && v & 0xff == b7 as u64
    }) by (bit_vector);
}

// -- executable writers -------------------------------------------------

pub fn push_be_u16(w: &mut Vec<u8>, v: u16)
    ensures
        final(w)@ == old(w)@ + spec_be_u16(v),
{
    let b0: u8 = ((v >> 8) & 0xff) as u8;
    let b1: u8 = (v & 0xff) as u8;
    w.push(b0);
    w.push(b1);
    assert(w@ =~= old(w)@ + spec_be_u16(v));
}

pub fn push_be_u32(w: &mut Vec<u8>, v: u32)
    ensures
        final(w)@ == old(w)@ + spec_be_u32(v),
{
    let b0: u8 = ((v >> 24) & 0xff) as u8;
    let b1: u8 = ((v >> 16) & 0xff) as u8;
    let b2: u8 = ((v >> 8) & 0xff) as u8;
    let b3: u8 = (v & 0xff) as u8;
    w.push(b0);
    w.push(b1);
    w.push(b2);
    w.push(b3);
    assert(w@ =~= old(w)@ + spec_be_u32(v));
}

pub fn push_be_u64(w: &mut Vec<u8>, v: u64)
    ensures
        final(w)@ == old(w)@ + spec_be_u64(v),
{
    let b0: u8 = ((v >> 56) & 0xff) as u8;
    let b1: u8 = ((v >> 48) & 0xff) as u8;
    let b2: u8 = ((v >> 40) & 0xff) as u8;
    let b3: u8 = ((v >> 32) & 0xff) as u8;
    let b4: u8 = ((v >> 24) & 0xff) as u8;
    let b5: u8 = ((v >> 16) & 0xff) as u8;
    let b6: u8 = ((v >> 8) & 0xff) as u8;
    let b7: u8 = (v & 0xff) as u8;
    w.push(b0);
    w.push(b1);
    w.push(b2);
    w.push(b3);
    w.push(b4);
    w.push(b5);
    w.push(b6);
    w.push(b7);
    assert(w@ =~= old(w)@ + spec_be_u64(v));
}

// -- executable readers -------------------------------------------------

pub fn read_be_u16(b: &[u8], i: usize) -> (v: u16)
    requires
        i + 2 <= b@.len(),
    ensures
        v == be16(b@[i as int], b@[i + 1]),
{
    ((b[i] as u16) << 8u16) | (b[i + 1] as u16)
}

pub fn read_be_u32(b: &[u8], i: usize) -> (v: u32)
    requires
        i + 4 <= b@.len(),
    ensures
        v == be32(b@[i as int], b@[i + 1], b@[i + 2], b@[i + 3]),
{
    ((b[i] as u32) << 24u32) | ((b[i + 1] as u32) << 16u32) | ((b[i + 2] as u32) << 8u32)
        | (b[i + 3] as u32)
}

pub fn read_be_u64(b: &[u8], i: usize) -> (v: u64)
    requires
        i + 8 <= b@.len(),
    ensures
        v == be64(
            b@[i as int],
            b@[i + 1],
            b@[i + 2],
            b@[i + 3],
            b@[i + 4],
            b@[i + 5],
            b@[i + 6],
            b@[i + 7],
        ),
{
    ((b[i] as u64) << 56u64) | ((b[i + 1] as u64) << 48u64) | ((b[i + 2] as u64) << 40u64)
        | ((b[i + 3] as u64) << 32u64) | ((b[i + 4] as u64) << 24u64)
        | ((b[i + 5] as u64) << 16u64) | ((b[i + 6] as u64) << 8u64) | (b[i + 7] as u64)
}

} // verus!
