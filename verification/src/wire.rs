//! Big-endian fixed-width integer fields of the wire format.

use vstd::prelude::*;

verus! {

/// The two big-endian bytes of a 16-bit value.
pub open spec fn be16(v: u16) -> Seq<u8> {
    seq![(v / 0x100) as u8, (v % 0x100) as u8]
}

/// The four big-endian bytes of a 32-bit value.
pub open spec fn be32(v: u32) -> Seq<u8> {
    seq![
        (v / 0x1000000) as u8,
        ((v / 0x10000) % 0x100) as u8,
        ((v / 0x100) % 0x100) as u8,
        (v % 0x100) as u8,
    ]
}

/// The eight big-endian bytes of a 64-bit value.
pub open spec fn be64(v: u64) -> Seq<u8> {
    seq![
        (v / 0x100000000000000) as u8,
        ((v / 0x1000000000000) % 0x100) as u8,
        ((v / 0x10000000000) % 0x100) as u8,
        ((v / 0x100000000) % 0x100) as u8,
        ((v / 0x1000000) % 0x100) as u8,
        ((v / 0x10000) % 0x100) as u8,
        ((v / 0x100) % 0x100) as u8,
        (v % 0x100) as u8,
    ]
}

/// Two values with the same big-endian bytes are the same value.
pub proof fn lemma_be16_injective(a: u16, b: u16)
    requires
        be16(a) == be16(b),
    ensures
        a == b,
{
    assert(be16(a)[0] == be16(b)[0] && be16(a)[1] == be16(b)[1]);
    assert(a == 0x100 * (a / 0x100) + a % 0x100);
    assert(b == 0x100 * (b / 0x100) + b % 0x100);
}

/// Two values with the same big-endian bytes are the same value.
pub proof fn lemma_be32_injective(a: u32, b: u32)
    requires
        be32(a) == be32(b),
    ensures
        a == b,
{
    assert(forall|i: int| 0 <= i < 4 ==> be32(a)[i] == be32(b)[i]);
    assert(a == 0x1000000 * (a / 0x1000000) + 0x10000 * ((a / 0x10000) % 0x100) + 0x100 * ((a
        / 0x100) % 0x100) + a % 0x100);
    assert(b == 0x1000000 * (b / 0x1000000) + 0x10000 * ((b / 0x10000) % 0x100) + 0x100 * ((b
        / 0x100) % 0x100) + b % 0x100);
}

/// Two values with the same big-endian bytes are the same value.
pub proof fn lemma_be64_injective(a: u64, b: u64)
    requires
        be64(a) == be64(b),
    ensures
        a == b,
{
    assert(forall|i: int| 0 <= i < 8 ==> be64(a)[i] == be64(b)[i]);
    assert(a / 0x100000000000000 <= 0xff && b / 0x100000000000000 <= 0xff);
    assert(a == b) by (bit_vector)
        requires
            a / 0x100000000000000 == b / 0x100000000000000,
            (a / 0x1000000000000) % 0x100 == (b / 0x1000000000000) % 0x100,
            (a / 0x10000000000) % 0x100 == (b / 0x10000000000) % 0x100,
            (a / 0x100000000) % 0x100 == (b / 0x100000000) % 0x100,
            (a / 0x1000000) % 0x100 == (b / 0x1000000) % 0x100,
            (a / 0x10000) % 0x100 == (b / 0x10000) % 0x100,
            (a / 0x100) % 0x100 == (b / 0x100) % 0x100,
            a % 0x100 == b % 0x100,
    ;
}

/// Append the two big-endian bytes of a 16-bit value.
pub(crate) fn put_u16(buf: &mut Vec<u8>, v: u16)
    ensures
        final(buf)@ == old(buf)@ + be16(v),
{
    buf.push((v / 0x100) as u8);
    buf.push((v % 0x100) as u8);
    proof {
        assert(buf@ =~= old(buf)@ + be16(v));
    }
}

/// Append the four big-endian bytes of a 32-bit value.
pub(crate) fn put_u32(buf: &mut Vec<u8>, v: u32)
    ensures
        final(buf)@ == old(buf)@ + be32(v),
{
    buf.push((v / 0x1000000) as u8);
    buf.push(((v / 0x10000) % 0x100) as u8);
    buf.push(((v / 0x100) % 0x100) as u8);
    buf.push((v % 0x100) as u8);
    proof {
        assert(buf@ =~= old(buf)@ + be32(v));
    }
}

/// Append the eight big-endian bytes of a 64-bit value.
pub(crate) fn put_u64(buf: &mut Vec<u8>, v: u64)
    ensures
        final(buf)@ == old(buf)@ + be64(v),
{
    buf.push((v / 0x100000000000000) as u8);
    buf.push(((v / 0x1000000000000) % 0x100) as u8);
    buf.push(((v / 0x10000000000) % 0x100) as u8);
    buf.push(((v / 0x100000000) % 0x100) as u8);
    buf.push(((v / 0x1000000) % 0x100) as u8);
    buf.push(((v / 0x10000) % 0x100) as u8);
    buf.push(((v / 0x100) % 0x100) as u8);
    buf.push((v % 0x100) as u8);
    proof {
        assert(buf@ =~= old(buf)@ + be64(v));
    }
}

/// Read the big-endian 16-bit value at `pos`.
pub(crate) fn get_u16(nbt: &[u8], pos: usize) -> (v: u16)
    requires
        pos + 2 <= nbt@.len(),
    ensures
        be16(v) == nbt@.subrange(pos as int, pos + 2),
        v as int == (nbt@[pos as int] as int) * 0x100 + (nbt@[pos + 1] as int),
{
    let v = (nbt[pos] as u16) * 0x100 + (nbt[pos + 1] as u16);
    proof {
        assert(be16(v) =~= nbt@.subrange(pos as int, pos + 2));
    }
    v
}

/// Read the big-endian 32-bit value at `pos`.
pub(crate) fn get_u32(nbt: &[u8], pos: usize) -> (v: u32)
    requires
        pos + 4 <= nbt@.len(),
    ensures
        be32(v) == nbt@.subrange(pos as int, pos + 4),
{
    let b0 = nbt[pos];
    let b1 = nbt[pos + 1];
    let b2 = nbt[pos + 2];
    let b3 = nbt[pos + 3];
    let v = (b0 as u32) * 0x1000000 + (b1 as u32) * 0x10000 + (b2 as u32) * 0x100 + (b3 as u32);
    proof {
        let c0 = b0 as u32;
        let c1 = b1 as u32;
        let c2 = b2 as u32;
        let c3 = b3 as u32;
        assert(v / 0x1000000 == c0 && (v / 0x10000) % 0x100 == c1 && (v / 0x100) % 0x100 == c2 && v
            % 0x100 == c3) by (bit_vector)
            requires
                v == c0 * 0x1000000 + c1 * 0x10000 + c2 * 0x100 + c3,
                c0 < 0x100 && c1 < 0x100 && c2 < 0x100 && c3 < 0x100,
        ;
        assert(be32(v) =~= nbt@.subrange(pos as int, pos + 4));
    }
    v
}

/// Read the big-endian 64-bit value at `pos`.
pub(crate) fn get_u64(nbt: &[u8], pos: usize) -> (v: u64)
    requires
        pos + 8 <= nbt@.len(),
    ensures
        be64(v) == nbt@.subrange(pos as int, pos + 8),
{
    let b0 = nbt[pos];
    let b1 = nbt[pos + 1];
    let b2 = nbt[pos + 2];
    let b3 = nbt[pos + 3];
    let b4 = nbt[pos + 4];
    let b5 = nbt[pos + 5];
    let b6 = nbt[pos + 6];
    let b7 = nbt[pos + 7];
    let v = (b0 as u64) * 0x100000000000000 + (b1 as u64) * 0x1000000000000 + (b2 as u64)
        * 0x10000000000 + (b3 as u64) * 0x100000000 + (b4 as u64) * 0x1000000 + (b5 as u64)
        * 0x10000 + (b6 as u64) * 0x100 + (b7 as u64);
    proof {
        let c0 = b0 as u64;
        let c1 = b1 as u64;
        let c2 = b2 as u64;
        let c3 = b3 as u64;
        let c4 = b4 as u64;
        let c5 = b5 as u64;
        let c6 = b6 as u64;
        let c7 = b7 as u64;
        assert(v / 0x100000000000000 == c0 && (v / 0x1000000000000) % 0x100 == c1 && (v
            / 0x10000000000) % 0x100 == c2 && (v / 0x100000000) % 0x100 == c3 && (v / 0x1000000)
            % 0x100 == c4 && (v / 0x10000) % 0x100 == c5 && (v / 0x100) % 0x100 == c6 && v % 0x100
            == c7) by (bit_vector)
            requires
                v == c0 * 0x100000000000000 + c1 * 0x1000000000000 + c2 * 0x10000000000 + c3
                    * 0x100000000 + c4 * 0x1000000 + c5 * 0x10000 + c6 * 0x100 + c7,
                c0 < 0x100 && c1 < 0x100 && c2 < 0x100 && c3 < 0x100,
                c4 < 0x100 && c5 < 0x100 && c6 < 0x100 && c7 < 0x100,
        ;
        assert(be64(v) =~= nbt@.subrange(pos as int, pos + 8));
    }
    v
}

} // verus!
