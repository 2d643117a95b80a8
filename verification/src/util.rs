//! Small conversions shared by the workloads.

use vstd::prelude::*;

verus! {

/// The four bytes of `u`, most significant first.
pub open spec fn be_bytes(u: u32) -> Seq<u8> {
    seq![
        (u as nat / 0x100_0000) as u8,
        (u as nat / 0x1_0000 % 0x100) as u8,
        (u as nat / 0x100 % 0x100) as u8,
        (u as nat % 0x100) as u8,
    ]
}

/// The number whose four bytes, most significant first, are the first four
/// of `b`.
pub open spec fn be_value(b: Seq<u8>) -> nat {
    b[0] as nat * 0x100_0000 + b[1] as nat * 0x1_0000 + b[2] as nat * 0x100 + b[3] as nat
}

/// The four bytes of `u`, most significant first.
pub fn u32_to_vec(u: u32) -> (bytes: Vec<u8>)
    ensures
        bytes@ == be_bytes(u),
{
    let b0 = (u >> 24) as u8;
    let b1 = ((u >> 16) & 0xff) as u8;
    let b2 = ((u >> 8) & 0xff) as u8;
    let b3 = (u & 0xff) as u8;
    assert(u >> 24 == u / 0x100_0000 && u >> 24 < 0x100) by (bit_vector);
    assert((u >> 16) & 0xff == u / 0x1_0000 % 0x100) by (bit_vector);
    assert((u >> 8) & 0xff == u / 0x100 % 0x100) by (bit_vector);
    assert(u & 0xff == u % 0x100) by (bit_vector);
    let bytes = vec![b0, b1, b2, b3];
    assert(bytes@ =~= be_bytes(u));
    bytes
}

/// The number whose four bytes, most significant first, are the first four
/// of `b`.
pub fn slice_to_u32(b: &[u8]) -> (u: u32)
    requires
        b@.len() >= 4,
    ensures
        u == be_value(b@),
{
    let b0 = b[0] as u32;
    let b1 = b[1] as u32;
    let b2 = b[2] as u32;
    let b3 = b[3] as u32;
    assert((b0 << 24) | (b1 << 16) | (b2 << 8) | b3 == b0 * 0x100_0000 + b1 * 0x1_0000 + b2 * 0x100
        + b3) by (bit_vector)
        requires
            b0 < 0x100,
            b1 < 0x100,
            b2 < 0x100,
            b3 < 0x100,
    ;
    (b0 << 24) | (b1 << 16) | (b2 << 8) | b3
}

/// A number is had back from its four bytes.
pub proof fn lemma_be_round_trip(u: u32)
    ensures
        be_value(be_bytes(u)) == u,
{
    let n = u as nat;
    assert(n / 0x100_0000 < 0x100);
    assert(n == (n / 0x100_0000) * 0x100_0000 + (n / 0x1_0000 % 0x100) * 0x1_0000 + (n / 0x100
        % 0x100) * 0x100 + n % 0x100) by {
        assert(n == (n / 0x100) * 0x100 + n % 0x100);
        assert(n / 0x100 == (n / 0x100 / 0x100) * 0x100 + n / 0x100 % 0x100);
        assert(n / 0x100 / 0x100 == n / 0x1_0000);
        assert(n / 0x1_0000 == (n / 0x1_0000 / 0x100) * 0x100 + n / 0x1_0000 % 0x100);
        assert(n / 0x1_0000 / 0x100 == n / 0x100_0000);
        assert(n / 0x100_0000 % 0x100 == n / 0x100_0000);
    }
}

/// The bytes turned round by `shift` places: the byte at each place is the
/// one that stood `shift` places further on, counting round.
pub open spec fn shifted(bytes: Seq<u8>, shift: nat) -> Seq<u8> {
    Seq::new(bytes.len(), |i: int| bytes[(i + shift) % bytes.len() as int])
}

/// The bytes turned round by `shift` places.
pub fn shift_bytes_by(bytes: &[u8], shift: usize) -> (buf: Vec<u8>)
    requires
        bytes@.len() + shift <= usize::MAX,
    ensures
        buf@ == shifted(bytes@, shift as nat),
{
    let mut buf: Vec<u8> = Vec::new();
    let mut i: usize = 0;
    while i < bytes.len()
        invariant
            i <= bytes.len(),
            bytes@.len() + shift <= usize::MAX,
            buf.len() == i,
            forall|j: int| 0 <= j < i ==> buf@[j] == bytes@[(j + shift) % bytes@.len() as int],
        decreases bytes.len() - i,
    {
        buf.push(bytes[(i + shift) % bytes.len()]);
        i += 1;
    }
    assert(buf@ =~= shifted(bytes@, shift as nat));
    buf
}

} // verus!
