//! The binary decoder: parsing wire bytes back into a tag tree.
//!
//! Each function's contract states completeness: wherever the bytes at the
//! cursor are the encoding of a valid tag (see `round_trippable`), decoding
//! succeeds and returns exactly that tag; a compound body that repeats a
//! name yields the `upsert` fold of its children, the last write winning.
//! Together with the encoder's contract this yields the round trip: decoding
//! what `to_nbt` wrote gives back the tree it was given. The contracts also
//! pin the failure kinds: a type byte no tag uses fails with that byte, a
//! buffer too short for a field fails as truncated, a name that is not
//! modified UTF-8 fails as invalid text, and leading bytes that fit neither
//! envelope — or claim gzip without being decodable — fail as a malformed
//! envelope.

use crate::format::{
    elems_encodable, elems_nodup, enc_document, enc_elems, enc_entries, enc_name, enc_payload,
    encodable, entries_encodable, entries_nodup, keys_unique, nodup_keys, round_trippable,
};
use crate::gzip::{gunzip_of, gzip_decompress};
use crate::mutf8::{mutf8_decode, mutf8_of};
use crate::tag::{
    dedup_acc, dedup_entries, elems_view, entries_view, lemma_dedup_unique, spec_type_byte,
    tag_view, upsert, TagType, TagV,
};
use crate::wire::{
    be16, be32, be64, get_u16, get_u32, get_u64, lemma_be16_injective, lemma_be32_injective,
    lemma_be64_injective,
};
use crate::{gzip_prefix, raw_prefix, FileType, NbtError};
use vstd::prelude::*;
use vstd::slice::{slice_index_get, slice_subrange};

verus! {

broadcast use {vstd::seq::group_seq_axioms, vstd::std_specs::vec::group_vec_axioms};

/// The bytes at `pos` are the name field of a named tag called `nm`.
pub open spec fn name_at(s: Seq<u8>, pos: int, nm: Seq<char>) -> bool {
    &&& mutf8_of(nm).len() <= 0xffff
    &&& pos + enc_name(nm).len() <= s.len()
    &&& s.subrange(pos, pos + enc_name(nm).len()) == enc_name(nm)
}

/// The bytes at `pos` are the payload of the valid tag `t`.
pub open spec fn payload_at(s: Seq<u8>, pos: int, t: TagV) -> bool {
    &&& round_trippable(t)
    &&& pos + enc_payload(t).len() <= s.len()
    &&& s.subrange(pos, pos + enc_payload(t).len()) == enc_payload(t)
}

/// The bytes at `pos` are the name field of `nm` followed by the payload of
/// the valid tag `t`.
pub open spec fn named_at(s: Seq<u8>, pos: int, nm: Seq<char>, t: TagV) -> bool {
    &&& name_at(s, pos, nm)
    &&& payload_at(s, pos + enc_name(nm).len(), t)
}

/// The bytes at `pos` are the payloads of the valid list elements `es`, all
/// of declared type `etb`.
pub open spec fn elems_at(s: Seq<u8>, pos: int, etb: u8, es: Seq<TagV>) -> bool {
    &&& elems_encodable(es, etb)
    &&& elems_nodup(es)
    &&& pos + enc_elems(es).len() <= s.len()
    &&& s.subrange(pos, pos + enc_elems(es).len()) == enc_elems(es)
}

/// The bytes at `pos` are a compound body holding the valid children
/// `entries`, followed by the terminator byte. The names at this level may
/// repeat; decoding then keeps the last occurrence of each name.
pub open spec fn body_at(s: Seq<u8>, pos: int, entries: Seq<(Seq<char>, TagV)>) -> bool {
    &&& entries_encodable(entries)
    &&& entries_nodup(entries)
    &&& pos + enc_entries(entries).len() + 1 <= s.len()
    &&& s.subrange(pos, pos + enc_entries(entries).len() + 1) == enc_entries(entries) + seq![
        0x00u8,
    ]
}

/// A valid root compound: every child can be written and is internally
/// clean; the root-level names may repeat (last write wins on decode).
pub open spec fn doc_wf(root: Seq<(Seq<char>, TagV)>) -> bool {
    entries_encodable(root) && entries_nodup(root)
}

/// The value of the 16-bit big-endian length field at `pos`.
pub open spec fn name_len_at(s: Seq<u8>, pos: int) -> int {
    (s[pos] as int) * 0x100 + (s[pos + 1] as int)
}

/// The least number of payload bytes a tag of the given type occupies on the
/// wire: its fixed-size fields.
pub open spec fn min_payload_len(tag_type: u8) -> int {
    if tag_type == 0x01 {
        1
    } else if tag_type == 0x02 {
        2
    } else if tag_type == 0x03 {
        4
    } else if tag_type == 0x04 {
        8
    } else if tag_type == 0x05 {
        4
    } else if tag_type == 0x06 {
        8
    } else if tag_type == 0x07 {
        4
    } else if tag_type == 0x08 {
        2
    } else if tag_type == 0x09 {
        5
    } else if tag_type == 0x0a {
        1
    } else if tag_type == 0x0b {
        4
    } else if tag_type == 0x0c {
        4
    } else {
        0
    }
}

/// A slice of a buffer that equals a concatenation splits into slices that
/// equal the parts.
pub proof fn lemma_subrange_concat(s: Seq<u8>, pos: int, a: Seq<u8>, b: Seq<u8>)
    requires
        0 <= pos,
        pos + a.len() + b.len() <= s.len(),
        s.subrange(pos, pos + a.len() + b.len()) == a + b,
    ensures
        s.subrange(pos, pos + a.len()) == a,
        s.subrange(pos + a.len(), pos + a.len() + b.len()) == b,
{
    assert forall|i: int| 0 <= i < a.len() implies s.subrange(pos, pos + a.len())[i] == a[i] by {
        assert(s.subrange(pos, pos + a.len() + b.len())[i] == (a + b)[i]);
    }
    assert(s.subrange(pos, pos + a.len()) =~= a);
    let big = s.subrange(pos, pos + a.len() + b.len());
    assert(s.subrange(pos + a.len(), pos + a.len() + b.len()) =~= big.subrange(
        a.len() as int,
        a.len() + b.len() as int,
    ));
    assert((a + b).subrange(a.len() as int, a.len() + b.len() as int) =~= b);
}

/// Only the terminator has the type byte zero, and every type byte is at
/// most `0x0c`.
pub proof fn lemma_type_byte_zero(t: TagV)
    ensures
        spec_type_byte(t) == 0 <==> t == TagV::End,
        spec_type_byte(t) <= 0x0c,
{
}

/// Read a name field: a 16-bit length, then that many bytes of modified
/// UTF-8. Wherever the bytes at `pos` are the name field of some name,
/// reading succeeds and returns exactly that name. A buffer too short for
/// the length field, or for the length it declares, fails as truncated;
/// any other failure means the bytes are not valid modified UTF-8.
pub fn get_name(nbt: &[u8], pos: usize) -> (r: Result<(String, usize), NbtError>)
    ensures
        r is Ok ==> pos + 2 <= r.unwrap().1 <= nbt@.len(),
        forall|nm: Seq<char>|
            #![trigger name_at(nbt@, pos as int, nm)]
            name_at(nbt@, pos as int, nm) ==> r is Ok && r.unwrap().0@ == nm && r.unwrap().1 == pos
                + enc_name(nm).len(),
        r == Err::<(String, usize), NbtError>(NbtError::TruncatedInput) <==> (pos + 2 > nbt@.len()
            || (pos + 2 <= nbt@.len() && pos + 2 + name_len_at(nbt@, pos as int) > nbt@.len())),
        r is Err ==> r == Err::<(String, usize), NbtError>(NbtError::TruncatedInput) || r == Err::<
            (String, usize),
            NbtError,
        >(NbtError::InvalidText),
{
    if nbt.len() < 2 || pos > nbt.len() - 2 {
        return Err(NbtError::TruncatedInput);
    }
    let len16 = get_u16(nbt, pos);
    let n = len16 as usize;
    if n > nbt.len() - (pos + 2) {
        proof {
            assert forall|nm: Seq<char>| name_at(nbt@, pos as int, nm) implies false by {
                lemma_subrange_concat(
                    nbt@,
                    pos as int,
                    be16(mutf8_of(nm).len() as u16),
                    mutf8_of(nm),
                );
                lemma_be16_injective(len16, mutf8_of(nm).len() as u16);
            }
        }
        return Err(NbtError::TruncatedInput);
    }
    let bytes = slice_subrange(nbt, pos + 2, pos + 2 + n);
    match mutf8_decode(bytes) {
        Some(s) => {
            proof {
                assert forall|nm: Seq<char>| name_at(nbt@, pos as int, nm) implies s@ == nm && pos
                    + 2 + n == pos + enc_name(nm).len() by {
                    lemma_subrange_concat(
                        nbt@,
                        pos as int,
                        be16(mutf8_of(nm).len() as u16),
                        mutf8_of(nm),
                    );
                    lemma_be16_injective(len16, mutf8_of(nm).len() as u16);
                    assert(bytes@ =~= mutf8_of(nm));
                }
            }
            Ok((s, pos + 2 + n))
        },
        None => {
            proof {
                assert forall|nm: Seq<char>| name_at(nbt@, pos as int, nm) implies false by {
                    lemma_subrange_concat(
                        nbt@,
                        pos as int,
                        be16(mutf8_of(nm).len() as u16),
                        mutf8_of(nm),
                    );
                    lemma_be16_injective(len16, mutf8_of(nm).len() as u16);
                    assert(bytes@ =~= mutf8_of(nm));
                }
            }
            Err(NbtError::InvalidText)
        },
    }
}

fn read_byte(nbt: &[u8], pos: usize) -> (r: Result<(TagType, usize), NbtError>)
    ensures
        r is Ok ==> pos <= r.unwrap().1 <= nbt@.len(),
        forall|t: TagV|
            #![trigger payload_at(nbt@, pos as int, t)]
            spec_type_byte(t) == 0x01 && payload_at(nbt@, pos as int, t) ==> r is Ok && tag_view(
                r.unwrap().0,
            ) == t && r.unwrap().1 == pos + enc_payload(t).len(),
        pos + 1 > nbt@.len() ==> r == Err::<(TagType, usize), NbtError>(NbtError::TruncatedInput),
{
    if pos >= nbt.len() {
        return Err(NbtError::TruncatedInput);
    }
    let b = *slice_index_get(nbt, pos);
    let v = b as i8;
    proof {
        assert forall|t: TagV|
            spec_type_byte(t) == 0x01 && payload_at(nbt@, pos as int, t) implies tag_view(
            TagType::Byte(v),
        ) == t by {
            let x = t->Byte_0;
            assert(nbt@.subrange(pos as int, pos + 1)[0] == b);
            assert(enc_payload(t)[0] == x as u8);
            assert((x as u8) as i8 == x) by (bit_vector);
        }
    }
    Ok((TagType::Byte(v), pos + 1))
}

fn read_short(nbt: &[u8], pos: usize) -> (r: Result<(TagType, usize), NbtError>)
    ensures
        r is Ok ==> pos <= r.unwrap().1 <= nbt@.len(),
        forall|t: TagV|
            #![trigger payload_at(nbt@, pos as int, t)]
            spec_type_byte(t) == 0x02 && payload_at(nbt@, pos as int, t) ==> r is Ok && tag_view(
                r.unwrap().0,
            ) == t && r.unwrap().1 == pos + enc_payload(t).len(),
        pos + 2 > nbt@.len() ==> r == Err::<(TagType, usize), NbtError>(NbtError::TruncatedInput),
{
    if nbt.len() < 2 || pos > nbt.len() - 2 {
        return Err(NbtError::TruncatedInput);
    }
    let u = get_u16(nbt, pos);
    let v = u as i16;
    proof {
        assert forall|t: TagV|
            spec_type_byte(t) == 0x02 && payload_at(nbt@, pos as int, t) implies tag_view(
            TagType::Short(v),
        ) == t by {
            let x = t->Short_0;
            lemma_be16_injective(u, x as u16);
            assert((x as u16) as i16 == x) by (bit_vector);
        }
    }
    Ok((TagType::Short(v), pos + 2))
}

fn read_int(nbt: &[u8], pos: usize) -> (r: Result<(TagType, usize), NbtError>)
    ensures
        r is Ok ==> pos <= r.unwrap().1 <= nbt@.len(),
        forall|t: TagV|
            #![trigger payload_at(nbt@, pos as int, t)]
            spec_type_byte(t) == 0x03 && payload_at(nbt@, pos as int, t) ==> r is Ok && tag_view(
                r.unwrap().0,
            ) == t && r.unwrap().1 == pos + enc_payload(t).len(),
        pos + 4 > nbt@.len() ==> r == Err::<(TagType, usize), NbtError>(NbtError::TruncatedInput),
{
    if nbt.len() < 4 || pos > nbt.len() - 4 {
        return Err(NbtError::TruncatedInput);
    }
    let u = get_u32(nbt, pos);
    let v = u as i32;
    proof {
        assert forall|t: TagV|
            spec_type_byte(t) == 0x03 && payload_at(nbt@, pos as int, t) implies tag_view(
            TagType::Int(v),
        ) == t by {
            let x = t->Int_0;
            lemma_be32_injective(u, x as u32);
            assert((x as u32) as i32 == x) by (bit_vector);
        }
    }
    Ok((TagType::Int(v), pos + 4))
}

fn read_long(nbt: &[u8], pos: usize) -> (r: Result<(TagType, usize), NbtError>)
    ensures
        r is Ok ==> pos <= r.unwrap().1 <= nbt@.len(),
        forall|t: TagV|
            #![trigger payload_at(nbt@, pos as int, t)]
            spec_type_byte(t) == 0x04 && payload_at(nbt@, pos as int, t) ==> r is Ok && tag_view(
                r.unwrap().0,
            ) == t && r.unwrap().1 == pos + enc_payload(t).len(),
        pos + 8 > nbt@.len() ==> r == Err::<(TagType, usize), NbtError>(NbtError::TruncatedInput),
{
    if nbt.len() < 8 || pos > nbt.len() - 8 {
        return Err(NbtError::TruncatedInput);
    }
    let u = get_u64(nbt, pos);
    let v = u as i64;
    proof {
        assert forall|t: TagV|
            spec_type_byte(t) == 0x04 && payload_at(nbt@, pos as int, t) implies tag_view(
            TagType::Long(v),
        ) == t by {
            let x = t->Long_0;
            lemma_be64_injective(u, x as u64);
            assert((x as u64) as i64 == x) by (bit_vector);
        }
    }
    Ok((TagType::Long(v), pos + 8))
}

fn read_float(nbt: &[u8], pos: usize) -> (r: Result<(TagType, usize), NbtError>)
    ensures
        r is Ok ==> pos <= r.unwrap().1 <= nbt@.len(),
        forall|t: TagV|
            #![trigger payload_at(nbt@, pos as int, t)]
            spec_type_byte(t) == 0x05 && payload_at(nbt@, pos as int, t) ==> r is Ok && tag_view(
                r.unwrap().0,
            ) == t && r.unwrap().1 == pos + enc_payload(t).len(),
        pos + 4 > nbt@.len() ==> r == Err::<(TagType, usize), NbtError>(NbtError::TruncatedInput),
{
    if nbt.len() < 4 || pos > nbt.len() - 4 {
        return Err(NbtError::TruncatedInput);
    }
    let u = get_u32(nbt, pos);
    proof {
        assert forall|t: TagV|
            spec_type_byte(t) == 0x05 && payload_at(nbt@, pos as int, t) implies tag_view(
            TagType::Float(u),
        ) == t by {
            lemma_be32_injective(u, t->Float_0);
        }
    }
    Ok((TagType::Float(u), pos + 4))
}

fn read_double(nbt: &[u8], pos: usize) -> (r: Result<(TagType, usize), NbtError>)
    ensures
        r is Ok ==> pos <= r.unwrap().1 <= nbt@.len(),
        forall|t: TagV|
            #![trigger payload_at(nbt@, pos as int, t)]
            spec_type_byte(t) == 0x06 && payload_at(nbt@, pos as int, t) ==> r is Ok && tag_view(
                r.unwrap().0,
            ) == t && r.unwrap().1 == pos + enc_payload(t).len(),
        pos + 8 > nbt@.len() ==> r == Err::<(TagType, usize), NbtError>(NbtError::TruncatedInput),
{
    if nbt.len() < 8 || pos > nbt.len() - 8 {
        return Err(NbtError::TruncatedInput);
    }
    let u = get_u64(nbt, pos);
    proof {
        assert forall|t: TagV|
            spec_type_byte(t) == 0x06 && payload_at(nbt@, pos as int, t) implies tag_view(
            TagType::Double(u),
        ) == t by {
            lemma_be64_injective(u, t->Double_0);
        }
    }
    Ok((TagType::Double(u), pos + 8))
}

fn read_string(nbt: &[u8], pos: usize) -> (r: Result<(TagType, usize), NbtError>)
    ensures
        r is Ok ==> pos <= r.unwrap().1 <= nbt@.len(),
        forall|t: TagV|
            #![trigger payload_at(nbt@, pos as int, t)]
            spec_type_byte(t) == 0x08 && payload_at(nbt@, pos as int, t) ==> r is Ok && tag_view(
                r.unwrap().0,
            ) == t && r.unwrap().1 == pos + enc_payload(t).len(),
        pos + 2 > nbt@.len() ==> r == Err::<(TagType, usize), NbtError>(NbtError::TruncatedInput),
{
    let (s, end) = match get_name(nbt, pos) {
        Ok(v) => v,
        Err(e) => {
            proof {
                assert forall|t: TagV|
                    spec_type_byte(t) == 0x08 && payload_at(nbt@, pos as int, t) implies false by {
                    assert(name_at(nbt@, pos as int, t->Str_0));
                }
            }
            return Err(e);
        },
    };
    proof {
        assert forall|t: TagV|
            spec_type_byte(t) == 0x08 && payload_at(nbt@, pos as int, t) implies tag_view(
            TagType::Str(s),
        ) == t && end == pos + enc_payload(t).len() by {
            assert(name_at(nbt@, pos as int, t->Str_0));
        }
    }
    Ok((TagType::Str(s), end))
}

/// Read a 32-bit element count. Wherever the count field encodes the length
/// of a sequence no longer than `i32::MAX`, the exact length is returned.
fn read_count(nbt: &[u8], pos: usize) -> (r: Result<(usize, usize), NbtError>)
    ensures
        r is Ok ==> pos <= r.unwrap().1 <= nbt@.len() && r.unwrap().1 == pos + 4,
        forall|n: nat|
            #![trigger be32(n as u32)]
            n <= 0x7fffffff && pos + 4 <= nbt@.len() && nbt@.subrange(pos as int, pos + 4) == be32(
                n as u32,
            ) ==> r is Ok && r.unwrap().0 == n,
        pos + 4 > nbt@.len() ==> r == Err::<(usize, usize), NbtError>(NbtError::TruncatedInput),
{
    if nbt.len() < 4 || pos > nbt.len() - 4 {
        return Err(NbtError::TruncatedInput);
    }
    let u = get_u32(nbt, pos);
    proof {
        assert forall|n: nat|
            #![trigger be32(n as u32)]
            n <= 0x7fffffff && pos + 4 <= nbt@.len() && nbt@.subrange(pos as int, pos + 4) == be32(
                n as u32,
            ) implies u == n by {
            lemma_be32_injective(u, n as u32);
        }
    }
    Ok((u as usize, pos + 4))
}

#[verifier::loop_isolation(false)]
#[verifier::rlimit(100)]
fn read_byte_array(nbt: &[u8], pos: usize) -> (r: Result<(TagType, usize), NbtError>)
    ensures
        r is Ok ==> pos <= r.unwrap().1 <= nbt@.len(),
        forall|t: TagV|
            #![trigger payload_at(nbt@, pos as int, t)]
            spec_type_byte(t) == 0x07 && payload_at(nbt@, pos as int, t) ==> r is Ok && tag_view(
                r.unwrap().0,
            ) == t && r.unwrap().1 == pos + enc_payload(t).len(),
        pos + 4 > nbt@.len() ==> r == Err::<(TagType, usize), NbtError>(NbtError::TruncatedInput),
{
    proof {
        assert forall|t: TagV|
            spec_type_byte(t) == 0x07 && payload_at(nbt@, pos as int, t) implies {
            &&& t->ByteArray_0.len() <= 0x7fffffff
            &&& pos + 4 <= nbt@.len()
            &&& nbt@.subrange(pos as int, pos + 4) == be32(t->ByteArray_0.len() as u32)
            &&& nbt@.subrange(pos + 4, pos + 4 + t->ByteArray_0.len()) == crate::format::enc_i8s(
                t->ByteArray_0,
            )
        } by {
            lemma_subrange_concat(
                nbt@,
                pos as int,
                be32(t->ByteArray_0.len() as u32),
                crate::format::enc_i8s(t->ByteArray_0),
            );
        }
    }
    let (n, start) = read_count(nbt, pos)?;
    if n > nbt.len() - start {
        return Err(NbtError::TruncatedInput);
    }
    let mut out: Vec<i8> = Vec::new();
    let mut i: usize = 0;
    while i < n
        invariant
            i <= n,
            start + n <= nbt@.len(),
            start == pos + 4,
            out@.len() == i,
            forall|k: int| 0 <= k < i ==> out@[k] == nbt@[start + k] as i8,
        decreases n - i,
    {
        let b = *slice_index_get(nbt, start + i);
        out.push(b as i8);
        i = i + 1;
    }
    proof {
        assert forall|t: TagV|
            spec_type_byte(t) == 0x07 && payload_at(nbt@, pos as int, t) implies tag_view(
            TagType::ByteArray(out),
        ) == t && start + n == pos + enc_payload(t).len() by {
            let v = t->ByteArray_0;
            assert forall|k: int| 0 <= k < v.len() implies out@[k] == v[k] by {
                let x = v[k];
                assert(nbt@.subrange(pos + 4, pos + 4 + v.len())[k] == crate::format::enc_i8s(v)[
                k]);
                assert(nbt@[start + k] == x as u8);
                assert((x as u8) as i8 == x) by (bit_vector);
            }
            assert(out@ =~= v);
        }
    }
    Ok((TagType::ByteArray(out), start + n))
}

#[verifier::loop_isolation(false)]
#[verifier::rlimit(100)]
fn read_int_array(nbt: &[u8], pos: usize) -> (r: Result<(TagType, usize), NbtError>)
    ensures
        r is Ok ==> pos <= r.unwrap().1 <= nbt@.len(),
        forall|t: TagV|
            #![trigger payload_at(nbt@, pos as int, t)]
            spec_type_byte(t) == 0x0b && payload_at(nbt@, pos as int, t) ==> r is Ok && tag_view(
                r.unwrap().0,
            ) == t && r.unwrap().1 == pos + enc_payload(t).len(),
        pos + 4 > nbt@.len() ==> r == Err::<(TagType, usize), NbtError>(NbtError::TruncatedInput),
{
    proof {
        assert forall|t: TagV|
            spec_type_byte(t) == 0x0b && payload_at(nbt@, pos as int, t) implies {
            &&& t->IntArray_0.len() <= 0x7fffffff
            &&& pos + 4 <= nbt@.len()
            &&& nbt@.subrange(pos as int, pos + 4) == be32(t->IntArray_0.len() as u32)
            &&& crate::decode::ints_at(nbt@, pos + 4, t->IntArray_0)
        } by {
            lemma_subrange_concat(
                nbt@,
                pos as int,
                be32(t->IntArray_0.len() as u32),
                crate::format::enc_i32s(t->IntArray_0),
            );
        }
    }
    let (n, start) = read_count(nbt, pos)?;
    proof {
        assert forall|t: TagV|
            spec_type_byte(t) == 0x0b && payload_at(nbt@, pos as int, t)
                && t->IntArray_0.len() == n implies Seq::<i32>::empty() == t->IntArray_0.take(0)
            && t->IntArray_0.skip(0) == t->IntArray_0 by {
            assert(Seq::<i32>::empty() =~= t->IntArray_0.take(0));
            assert(t->IntArray_0.skip(0) =~= t->IntArray_0);
        }
    }
    let mut out: Vec<i32> = Vec::new();
    let mut cur = start;
    let mut i: usize = 0;
    while i < n
        invariant
            i <= n,
            pos <= start <= cur <= nbt@.len(),
            out@.len() == i,
            forall|t: TagV|
                #![trigger payload_at(nbt@, pos as int, t)]
                spec_type_byte(t) == 0x0b && payload_at(nbt@, pos as int, t) && t->IntArray_0.len()
                    == n ==> out@ == t->IntArray_0.take(i as int) && ints_at(
                    nbt@,
                    cur as int,
                    t->IntArray_0.skip(i as int),
                ) && cur + crate::format::enc_i32s(t->IntArray_0.skip(i as int)).len() == pos
                    + enc_payload(t).len(),
        decreases n - i,
    {
        if nbt.len() < 4 || cur > nbt.len() - 4 {
            proof {
                assert forall|t: TagV|
                    spec_type_byte(t) == 0x0b && payload_at(nbt@, pos as int, t)
                        && t->IntArray_0.len() == n implies false by {
                    let rest = t->IntArray_0.skip(i as int);
                    assert(rest.len() > 0);
                    assert(crate::format::enc_i32s(rest).len() >= 4);
                }
            }
            return Err(NbtError::TruncatedInput);
        }
        let u = get_u32(nbt, cur);
        out.push(u as i32);
        proof {
            assert forall|t: TagV|
                spec_type_byte(t) == 0x0b && payload_at(nbt@, pos as int, t) && t->IntArray_0.len()
                    == n implies out@ == t->IntArray_0.take(i + 1) && ints_at(
                nbt@,
                cur + 4,
                t->IntArray_0.skip(i + 1),
            ) && cur + 4 + crate::format::enc_i32s(t->IntArray_0.skip(i + 1)).len() == pos
                + enc_payload(t).len() by {
                let v = t->IntArray_0;
                let rest = v.skip(i as int);
                assert(rest[0] == v[i as int]);
                assert(rest.drop_first() =~= v.skip(i + 1));
                lemma_subrange_concat(
                    nbt@,
                    cur as int,
                    be32(rest[0] as u32),
                    crate::format::enc_i32s(rest.drop_first()),
                );
                let x = v[i as int];
                lemma_be32_injective(u, x as u32);
                assert((x as u32) as i32 == x) by (bit_vector);
                assert(out@ =~= v.take(i + 1));
            }
        }
        cur = cur + 4;
        i = i + 1;
    }
    proof {
        assert forall|t: TagV|
            spec_type_byte(t) == 0x0b && payload_at(nbt@, pos as int, t) implies tag_view(
            TagType::IntArray(out),
        ) == t && cur == pos + enc_payload(t).len() by {
            assert(t->IntArray_0.len() == n);
            assert(t->IntArray_0.take(n as int) =~= t->IntArray_0);
            assert(t->IntArray_0.skip(n as int) =~= Seq::<i32>::empty());
        }
    }
    Ok((TagType::IntArray(out), cur))
}

/// The bytes at `pos` are the big-endian elements `v`.
pub open spec fn ints_at(s: Seq<u8>, pos: int, v: Seq<i32>) -> bool {
    &&& pos + crate::format::enc_i32s(v).len() <= s.len()
    &&& s.subrange(pos, pos + crate::format::enc_i32s(v).len()) == crate::format::enc_i32s(v)
}

/// The bytes at `pos` are the big-endian elements `v`.
pub open spec fn longs_at(s: Seq<u8>, pos: int, v: Seq<i64>) -> bool {
    &&& pos + crate::format::enc_i64s(v).len() <= s.len()
    &&& s.subrange(pos, pos + crate::format::enc_i64s(v).len()) == crate::format::enc_i64s(v)
}

#[verifier::loop_isolation(false)]
#[verifier::rlimit(100)]
fn read_long_array(nbt: &[u8], pos: usize) -> (r: Result<(TagType, usize), NbtError>)
    ensures
        r is Ok ==> pos <= r.unwrap().1 <= nbt@.len(),
        forall|t: TagV|
            #![trigger payload_at(nbt@, pos as int, t)]
            spec_type_byte(t) == 0x0c && payload_at(nbt@, pos as int, t) ==> r is Ok && tag_view(
                r.unwrap().0,
            ) == t && r.unwrap().1 == pos + enc_payload(t).len(),
        pos + 4 > nbt@.len() ==> r == Err::<(TagType, usize), NbtError>(NbtError::TruncatedInput),
{
    proof {
        assert forall|t: TagV|
            spec_type_byte(t) == 0x0c && payload_at(nbt@, pos as int, t) implies {
            &&& t->LongArray_0.len() <= 0x7fffffff
            &&& pos + 4 <= nbt@.len()
            &&& nbt@.subrange(pos as int, pos + 4) == be32(t->LongArray_0.len() as u32)
            &&& longs_at(nbt@, pos + 4, t->LongArray_0)
        } by {
            lemma_subrange_concat(
                nbt@,
                pos as int,
                be32(t->LongArray_0.len() as u32),
                crate::format::enc_i64s(t->LongArray_0),
            );
        }
    }
    let (n, start) = read_count(nbt, pos)?;
    proof {
        assert forall|t: TagV|
            spec_type_byte(t) == 0x0c && payload_at(nbt@, pos as int, t)
                && t->LongArray_0.len() == n implies Seq::<i64>::empty() == t->LongArray_0.take(0)
            && t->LongArray_0.skip(0) == t->LongArray_0 by {
            assert(Seq::<i64>::empty() =~= t->LongArray_0.take(0));
            assert(t->LongArray_0.skip(0) =~= t->LongArray_0);
        }
    }
    let mut out: Vec<i64> = Vec::new();
    let mut cur = start;
    let mut i: usize = 0;
    while i < n
        invariant
            i <= n,
            pos <= start <= cur <= nbt@.len(),
            out@.len() == i,
            forall|t: TagV|
                #![trigger payload_at(nbt@, pos as int, t)]
                spec_type_byte(t) == 0x0c && payload_at(nbt@, pos as int, t)
                    && t->LongArray_0.len() == n ==> out@ == t->LongArray_0.take(i as int)
                    && longs_at(nbt@, cur as int, t->LongArray_0.skip(i as int)) && cur
                    + crate::format::enc_i64s(t->LongArray_0.skip(i as int)).len() == pos
                    + enc_payload(t).len(),
        decreases n - i,
    {
        if nbt.len() < 8 || cur > nbt.len() - 8 {
            proof {
                assert forall|t: TagV|
                    spec_type_byte(t) == 0x0c && payload_at(nbt@, pos as int, t)
                        && t->LongArray_0.len() == n implies false by {
                    let rest = t->LongArray_0.skip(i as int);
                    assert(rest.len() > 0);
                    assert(crate::format::enc_i64s(rest).len() >= 8);
                }
            }
            return Err(NbtError::TruncatedInput);
        }
        let u = get_u64(nbt, cur);
        out.push(u as i64);
        proof {
            assert forall|t: TagV|
                spec_type_byte(t) == 0x0c && payload_at(nbt@, pos as int, t)
                    && t->LongArray_0.len() == n implies out@ == t->LongArray_0.take(i + 1)
                && longs_at(nbt@, cur + 8, t->LongArray_0.skip(i + 1)) && cur + 8
                + crate::format::enc_i64s(t->LongArray_0.skip(i + 1)).len() == pos + enc_payload(
                t,
            ).len() by {
                let v = t->LongArray_0;
                let rest = v.skip(i as int);
                assert(rest[0] == v[i as int]);
                assert(rest.drop_first() =~= v.skip(i + 1));
                lemma_subrange_concat(
                    nbt@,
                    cur as int,
                    be64(rest[0] as u64),
                    crate::format::enc_i64s(rest.drop_first()),
                );
                let x = v[i as int];
                lemma_be64_injective(u, x as u64);
                assert((x as u64) as i64 == x) by (bit_vector);
                assert(out@ =~= v.take(i + 1));
            }
        }
        cur = cur + 8;
        i = i + 1;
    }
    proof {
        assert forall|t: TagV|
            spec_type_byte(t) == 0x0c && payload_at(nbt@, pos as int, t) implies tag_view(
            TagType::LongArray(out),
        ) == t && cur == pos + enc_payload(t).len() by {
            assert(t->LongArray_0.len() == n);
            assert(t->LongArray_0.take(n as int) =~= t->LongArray_0);
            assert(t->LongArray_0.skip(n as int) =~= Seq::<i64>::empty());
        }
    }
    Ok((TagType::LongArray(out), cur))
}

/// Read a list payload: element type byte, count, then the elements.
#[verifier::loop_isolation(false)]
#[verifier::rlimit(100)]
fn read_list(nbt: &[u8], pos: usize) -> (r: Result<(TagType, usize), NbtError>)
    ensures
        r is Ok ==> pos <= r.unwrap().1 <= nbt@.len(),
        forall|t: TagV|
            #![trigger payload_at(nbt@, pos as int, t)]
            spec_type_byte(t) == 0x09 && payload_at(nbt@, pos as int, t) ==> r is Ok && tag_view(
                r.unwrap().0,
            ) == t && r.unwrap().1 == pos + enc_payload(t).len(),
        pos + 5 > nbt@.len() ==> r == Err::<(TagType, usize), NbtError>(NbtError::TruncatedInput),
    decreases nbt@.len() - pos, 0int,
{
    proof {
        assert forall|t: TagV|
            spec_type_byte(t) == 0x09 && payload_at(nbt@, pos as int, t) implies {
            let es = t->List_0;
            &&& pos + 5 <= nbt@.len()
            &&& es.len() <= 0x7fffffff
            &&& nbt@[pos as int] == crate::format::elem_type_byte(es)
            &&& nbt@.subrange(pos + 1, pos + 5) == be32(es.len() as u32)
            &&& elems_at(nbt@, pos + 5, crate::format::elem_type_byte(es), es)
            &&& pos + 5 + enc_elems(es).len() == pos + enc_payload(t).len()
        } by {
            let es = t->List_0;
            let etbv = crate::format::elem_type_byte(es);
            assert(enc_payload(t) =~= seq![etbv] + (be32(es.len() as u32) + enc_elems(es)));
            lemma_subrange_concat(
                nbt@,
                pos as int,
                seq![etbv],
                be32(es.len() as u32) + enc_elems(es),
            );
            assert(nbt@.subrange(pos as int, pos + 1)[0] == nbt@[pos as int]);
            lemma_subrange_concat(nbt@, pos + 1, be32(es.len() as u32), enc_elems(es));
        }
    }
    if pos >= nbt.len() {
        return Err(NbtError::TruncatedInput);
    }
    let etb = *slice_index_get(nbt, pos);
    let (n, start) = match read_count(nbt, pos + 1) {
        Ok(v) => v,
        Err(e) => {
            return Err(e);
        },
    };
    if etb == 0x00 && n > 0 {
        proof {
            assert forall|t: TagV|
                spec_type_byte(t) == 0x09 && payload_at(nbt@, pos as int, t) implies false by {
                let es = t->List_0;
                assert(es.len() == n);
                assert(es.skip(0) =~= es);
                assert(spec_type_byte(es[0]) == 0);
                lemma_type_byte_zero(es[0]);
                assert(!encodable(TagV::End));
            }
        }
        return Err(NbtError::UnknownTagType(0x00));
    }
    proof {
        assert forall|t: TagV|
            spec_type_byte(t) == 0x09 && payload_at(nbt@, pos as int, t) implies {
            let es = t->List_0;
            &&& es.len() == n
            &&& Seq::<TagV>::empty() == es.take(0)
            &&& es.skip(0) == es
        } by {
            let es = t->List_0;
            assert(Seq::<TagV>::empty() =~= es.take(0));
            assert(es.skip(0) =~= es);
        }
    }
    let mut out: Vec<TagType> = Vec::new();
    let mut cur = start;
    let mut i: usize = 0;
    while i < n
        invariant
            i <= n,
            pos < start <= cur <= nbt@.len(),
            out@.len() == i,
            forall|t: TagV|
                #![trigger payload_at(nbt@, pos as int, t)]
                spec_type_byte(t) == 0x09 && payload_at(nbt@, pos as int, t) ==> {
                    let es = t->List_0;
                    &&& elems_view(out@) == es.take(i as int)
                    &&& elems_at(nbt@, cur as int, crate::format::elem_type_byte(es), es.skip(i as int))
                    &&& cur + enc_elems(es.skip(i as int)).len() == pos + enc_payload(t).len()
                },
        decreases n - i,
    {
        proof {
            assert forall|t: TagV|
                spec_type_byte(t) == 0x09 && payload_at(nbt@, pos as int, t) implies {
                let es = t->List_0;
                &&& payload_at(nbt@, cur as int, es[i as int])
                &&& spec_type_byte(es[i as int]) == etb
            } by {
                let es = t->List_0;
                let rest = es.skip(i as int);
                assert(es.len() == n);
                assert(rest.len() > 0);
                assert(rest[0] == es[i as int]);
                lemma_subrange_concat(
                    nbt@,
                    cur as int,
                    enc_payload(rest[0]),
                    enc_elems(rest.drop_first()),
                );
            }
        }
        let el = match read_payload(nbt, cur, etb) {
            Ok(v) => v,
            Err(e) => {
                return Err(e);
            },
        };
        let (tag, nc) = el;
        out.push(tag);
        proof {
            assert forall|t: TagV|
                spec_type_byte(t) == 0x09 && payload_at(nbt@, pos as int, t) implies {
                let es = t->List_0;
                &&& elems_view(out@) == es.take(i + 1)
                &&& elems_at(nbt@, nc as int, crate::format::elem_type_byte(es), es.skip(i + 1))
                &&& nc + enc_elems(es.skip(i + 1)).len() == pos + enc_payload(t).len()
            } by {
                let es = t->List_0;
                let rest = es.skip(i as int);
                assert(rest[0] == es[i as int]);
                assert(rest.drop_first() =~= es.skip(i + 1));
                lemma_subrange_concat(
                    nbt@,
                    cur as int,
                    enc_payload(rest[0]),
                    enc_elems(rest.drop_first()),
                );
                assert(elems_view(out@) =~= es.take(i + 1));
            }
        }
        cur = nc;
        i = i + 1;
    }
    proof {
        crate::tag::lemma_tag_view_list(out);
        assert forall|t: TagV|
            spec_type_byte(t) == 0x09 && payload_at(nbt@, pos as int, t) implies tag_view(
            TagType::List(out),
        ) == t && cur == pos + enc_payload(t).len() by {
            let es = t->List_0;
            assert(es.len() == n);
            assert(es.take(n as int) =~= es);
            assert(es.skip(n as int) =~= Seq::<TagV>::empty());
        }
    }
    Ok((TagType::List(out), cur))
}

/// One step of a compound body: its first child's type byte, name field and
/// payload stand at `cur`, and the rest of the body follows.
proof fn lemma_body_step(s: Seq<u8>, cur: int, rest: Seq<(Seq<char>, TagV)>)
    requires
        0 <= cur,
        body_at(s, cur, rest),
        rest.len() > 0,
    ensures
        s[cur] == spec_type_byte(rest[0].1),
        s[cur] != 0,
        name_at(s, cur + 1, rest[0].0),
        payload_at(s, cur + 1 + enc_name(rest[0].0).len(), rest[0].1),
        body_at(
            s,
            cur + 1 + enc_name(rest[0].0).len() + enc_payload(rest[0].1).len(),
            rest.drop_first(),
        ),
{
    let nm = rest[0].0;
    let t = rest[0].1;
    let tail = enc_entries(rest.drop_first()) + seq![0x00u8];
    assert(encodable(t) && mutf8_of(nm).len() <= 0xffff && entries_encodable(rest.drop_first()));
    assert(nodup_keys(t) && entries_nodup(rest.drop_first()));
    assert(enc_entries(rest) + seq![0x00u8] =~= seq![spec_type_byte(t)] + (enc_name(nm) + (
    enc_payload(t) + tail)));
    lemma_subrange_concat(s, cur, seq![spec_type_byte(t)], enc_name(nm) + (enc_payload(t) + tail));
    assert(s.subrange(cur, cur + 1)[0] == s[cur]);
    lemma_subrange_concat(s, cur + 1, enc_name(nm), enc_payload(t) + tail);
    lemma_subrange_concat(s, cur + 1 + enc_name(nm).len(), enc_payload(t), tail);
    lemma_type_byte_zero(t);
}

/// An empty compound body is just the terminator byte.
proof fn lemma_body_empty(s: Seq<u8>, cur: int, rest: Seq<(Seq<char>, TagV)>)
    requires
        0 <= cur,
        body_at(s, cur, rest),
        rest.len() == 0,
    ensures
        s[cur] == 0,
{
    assert(enc_entries(rest) + seq![0x00u8] =~= seq![0x00u8]);
    assert(s.subrange(cur, cur + enc_entries(rest).len() + 1) =~= s.subrange(cur, cur + 1));
    assert(s.subrange(cur, cur + 1)[0] == s[cur]);
}

/// Read one named child of a compound: type byte, name field, payload.
#[verifier::rlimit(100)]
fn read_entry(nbt: &[u8], cur: usize) -> (r: Result<(String, TagType, usize), NbtError>)
    ensures
        r is Ok ==> cur < r.unwrap().2 <= nbt@.len(),
        forall|rest: Seq<(Seq<char>, TagV)>|
            #![trigger body_at(nbt@, cur as int, rest)]
            body_at(nbt@, cur as int, rest) && rest.len() > 0 ==> r is Ok && r.unwrap().0@
                == rest[0].0 && tag_view(r.unwrap().1) == rest[0].1 && r.unwrap().2 == cur + 1
                + enc_name(rest[0].0).len() + enc_payload(rest[0].1).len() && body_at(
                nbt@,
                r.unwrap().2 as int,
                rest.drop_first(),
            ),
    decreases nbt@.len() - cur, 0int,
{
    if cur >= nbt.len() {
        return Err(NbtError::TruncatedInput);
    }
    let tb = *slice_index_get(nbt, cur);
    proof {
        assert forall|rest: Seq<(Seq<char>, TagV)>|
            body_at(nbt@, cur as int, rest) && rest.len() > 0 implies name_at(
            nbt@,
            cur as int + 1,
            rest[0].0,
        ) && payload_at(nbt@, cur as int + 1 + enc_name(rest[0].0).len(), rest[0].1) && tb
            == spec_type_byte(rest[0].1) && body_at(
            nbt@,
            cur as int + 1 + enc_name(rest[0].0).len() + enc_payload(rest[0].1).len(),
            rest.drop_first(),
        ) by {
            lemma_body_step(nbt@, cur as int, rest);
        }
    }
    let (name, p2) = match get_name(nbt, cur + 1) {
        Ok(v) => v,
        Err(e) => {
            return Err(e);
        },
    };
    let (tag, p3) = match read_payload(nbt, p2, tb) {
        Ok(v) => v,
        Err(e) => {
            return Err(e);
        },
    };
    Ok((name, tag, p3))
}

/// Read a compound body: named children until the terminator byte. A child
/// whose name repeats an earlier one replaces it and moves to the end (last
/// write wins), so the result is the `upsert` fold of the body's children.
#[verifier::loop_isolation(false)]
#[verifier::rlimit(100)]
fn read_body(nbt: &[u8], pos: usize) -> (r: Result<(Vec<(String, TagType)>, usize), NbtError>)
    ensures
        r is Ok ==> pos < r.unwrap().1 <= nbt@.len(),
        pos >= nbt@.len() ==> r == Err::<(Vec<(String, TagType)>, usize), NbtError>(
            NbtError::TruncatedInput,
        ),
        forall|entries: Seq<(Seq<char>, TagV)>|
            #![trigger body_at(nbt@, pos as int, entries)]
            body_at(nbt@, pos as int, entries) ==> r is Ok && entries_view(r.unwrap().0@)
                == dedup_entries(entries) && r.unwrap().1 == pos + enc_entries(entries).len() + 1,
    decreases nbt@.len() - pos, 1int,
{
    proof {
        assert forall|entries: Seq<(Seq<char>, TagV)>|
            body_at(nbt@, pos as int, entries) implies dedup_acc(
            entries.skip(0),
            entries_view(Seq::<(String, TagType)>::empty()),
        ) == dedup_entries(entries) && entries.skip(0) == entries by {
            assert(entries.skip(0) =~= entries);
            assert(entries_view(Seq::<(String, TagType)>::empty()) =~= Seq::<
                (Seq<char>, TagV),
            >::empty());
        }
    }
    if pos >= nbt.len() {
        proof {
            assert forall|entries: Seq<(Seq<char>, TagV)>|
                body_at(nbt@, pos as int, entries) implies false by {}
        }
        return Err(NbtError::TruncatedInput);
    }
    let mut out: Vec<(String, TagType)> = Vec::new();
    let mut cur = pos;
    let ghost mut k: int = 0;
    loop
        invariant
            pos <= cur,
            forall|entries: Seq<(Seq<char>, TagV)>|
                #![trigger body_at(nbt@, pos as int, entries)]
                body_at(nbt@, pos as int, entries) ==> {
                    &&& 0 <= k <= entries.len()
                    &&& dedup_acc(entries.skip(k), entries_view(out@)) == dedup_entries(entries)
                    &&& body_at(nbt@, cur as int, entries.skip(k))
                    &&& cur + enc_entries(entries.skip(k)).len() == pos + enc_entries(
                        entries,
                    ).len()
                },
        decreases nbt@.len() - cur,
    {
        if cur >= nbt.len() {
            proof {
                assert forall|entries: Seq<(Seq<char>, TagV)>|
                    body_at(nbt@, pos as int, entries) implies false by {}
            }
            return Err(NbtError::TruncatedInput);
        }
        let tb = *slice_index_get(nbt, cur);
        proof {
            assert forall|entries: Seq<(Seq<char>, TagV)>|
                body_at(nbt@, pos as int, entries) implies (entries.skip(k).len() == 0 <==> tb
                == 0) && (entries.skip(k).len() > 0 ==> entries.skip(k)[0] == entries[k]) by {
                let rest = entries.skip(k);
                if rest.len() == 0 {
                    lemma_body_empty(nbt@, cur as int, rest);
                } else {
                    lemma_body_step(nbt@, cur as int, rest);
                }
            }
        }
        if tb == 0x00 {
            proof {
                assert forall|entries: Seq<(Seq<char>, TagV)>|
                    body_at(nbt@, pos as int, entries) implies entries_view(out@) == dedup_entries(
                    entries,
                ) && cur + 1 == pos + enc_entries(entries).len() + 1 by {
                    let rest = entries.skip(k);
                    if rest.len() > 0 {
                        assert(false);
                    }
                    assert(rest =~= Seq::<(Seq<char>, TagV)>::empty());
                }
            }
            return Ok((out, cur + 1));
        }
        let (name, tag, p3) = match read_entry(nbt, cur) {
            Ok(v) => v,
            Err(e) => {
                proof {
                    assert forall|entries: Seq<(Seq<char>, TagV)>|
                        body_at(nbt@, pos as int, entries) implies false by {
                        if entries.skip(k).len() == 0 {
                            lemma_body_empty(nbt@, cur as int, entries.skip(k));
                        }
                    }
                }
                return Err(e);
            },
        };
        proof {
            assert forall|entries: Seq<(Seq<char>, TagV)>|
                body_at(nbt@, pos as int, entries) implies {
                &&& name@ == entries[k].0
                &&& tag_view(tag) == entries[k].1
                &&& body_at(nbt@, p3 as int, entries.skip(k + 1))
                &&& p3 + enc_entries(entries.skip(k + 1)).len() == pos + enc_entries(
                    entries,
                ).len()
            } by {
                if entries.skip(k).len() == 0 {
                    lemma_body_empty(nbt@, cur as int, entries.skip(k));
                }
                assert(entries.skip(k).drop_first() =~= entries.skip(k + 1));
            }
        }
        let ghost out_before = out@;
        crate::resolve::upsert_entry(&mut out, name, tag);
        proof {
            assert forall|entries: Seq<(Seq<char>, TagV)>|
                body_at(nbt@, pos as int, entries) implies dedup_acc(
                entries.skip(k + 1),
                entries_view(out@),
            ) == dedup_entries(entries) by {
                let rest = entries.skip(k);
                assert(rest.drop_first() =~= entries.skip(k + 1));
                assert(dedup_acc(rest, entries_view(out_before)) == dedup_acc(
                    entries.skip(k + 1),
                    upsert(entries_view(out_before), entries[k].0, entries[k].1),
                ));
            }
            k = k + 1;
            assert(cur < p3);
        }
        cur = p3;
    }
}

/// Read the payload of a tag whose type byte is `tag_type`. Wherever the
/// bytes at `pos` are the payload of some valid tag of that type, reading
/// succeeds and returns exactly that tag; a compound body whose names repeat
/// yields the `upsert` fold of its children (last write wins). A type byte
/// no tag uses fails with that byte, and a buffer too short for the type's
/// fixed-size fields fails as truncated.
pub(crate) fn read_payload(nbt: &[u8], pos: usize, tag_type: u8) -> (r: Result<
    (TagType, usize),
    NbtError,
>)
    ensures
        r is Ok ==> pos <= r.unwrap().1 <= nbt@.len(),
        forall|t: TagV|
            #![trigger payload_at(nbt@, pos as int, t)]
            spec_type_byte(t) == tag_type && payload_at(nbt@, pos as int, t) ==> r is Ok
                && tag_view(r.unwrap().0) == t && r.unwrap().1 == pos + enc_payload(t).len(),
        forall|entries: Seq<(Seq<char>, TagV)>|
            #![trigger body_at(nbt@, pos as int, entries)]
            tag_type == 0x0a && body_at(nbt@, pos as int, entries) ==> r is Ok && tag_view(
                r.unwrap().0,
            ) == TagV::Compound(dedup_entries(entries)) && r.unwrap().1 == pos + enc_entries(
                entries,
            ).len() + 1,
        tag_type > 0x0c ==> r == Err::<(TagType, usize), NbtError>(
            NbtError::UnknownTagType(tag_type),
        ),
        0x01 <= tag_type <= 0x0c && pos + min_payload_len(tag_type) > nbt@.len() ==> r == Err::<
            (TagType, usize),
            NbtError,
        >(NbtError::TruncatedInput),
    decreases nbt@.len() - pos, 2int,
{
    proof {
        assert forall|t: TagV| spec_type_byte(t) == 0 implies t == TagV::End by {
            lemma_type_byte_zero(t);
        }
        assert forall|t: TagV| true implies spec_type_byte(t) <= 0x0c by {
            lemma_type_byte_zero(t);
        }
    }
    match tag_type {
        0x00 => {
            if pos > nbt.len() {
                return Err(NbtError::TruncatedInput);
            }
            Ok((TagType::End, pos))
        },
        0x01 => read_byte(nbt, pos),
        0x02 => read_short(nbt, pos),
        0x03 => read_int(nbt, pos),
        0x04 => read_long(nbt, pos),
        0x05 => read_float(nbt, pos),
        0x06 => read_double(nbt, pos),
        0x07 => read_byte_array(nbt, pos),
        0x08 => read_string(nbt, pos),
        0x09 => read_list(nbt, pos),
        0x0a => {
            let (entries, end) = match read_body(nbt, pos) {
                Ok(v) => v,
                Err(e) => {
                    proof {
                        assert forall|t: TagV|
                            spec_type_byte(t) == 0x0a && payload_at(
                                nbt@,
                                pos as int,
                                t,
                            ) implies false by {
                            let es = t->Compound_0;
                            assert(enc_payload(t) == enc_entries(es) + seq![0x00u8]);
                            assert(body_at(nbt@, pos as int, es));
                        }
                        assert forall|es: Seq<(Seq<char>, TagV)>|
                            body_at(nbt@, pos as int, es) implies false by {}
                    }
                    return Err(e);
                },
            };
            proof {
                crate::tag::lemma_tag_view_compound(entries);
                assert forall|t: TagV|
                    spec_type_byte(t) == 0x0a && payload_at(nbt@, pos as int, t) implies tag_view(
                    TagType::Compound(entries),
                ) == t && end == pos + enc_payload(t).len() by {
                    let es = t->Compound_0;
                    assert(enc_payload(t) == enc_entries(es) + seq![0x00u8]);
                    assert(body_at(nbt@, pos as int, es));
                    lemma_dedup_unique(es);
                }
            }
            Ok((TagType::Compound(entries), end))
        },
        0x0b => read_int_array(nbt, pos),
        0x0c => read_long_array(nbt, pos),
        _ => Err(NbtError::UnknownTagType(tag_type)),
    }
}

/// Read one tag at `pos`, whose type byte has already been read: its name
/// field first unless it is anonymous, then its payload. Anonymous tags
/// report the empty name. A compound whose body repeats a name keeps the
/// last occurrence of that name (last write wins); a type byte no tag uses
/// fails with that byte; a buffer too short for the name field or the
/// payload's fixed-size fields fails as truncated.
pub fn walk(nbt: &[u8], pos: usize, tag_type: u8, is_anonymous: bool) -> (r: Result<
    (String, TagType, usize),
    NbtError,
>)
    ensures
        r is Ok ==> pos <= r.unwrap().2 <= nbt@.len(),
        is_anonymous ==> forall|t: TagV|
            #![trigger payload_at(nbt@, pos as int, t)]
            spec_type_byte(t) == tag_type && payload_at(nbt@, pos as int, t) ==> r is Ok
                && r.unwrap().0@ == Seq::<char>::empty() && tag_view(r.unwrap().1) == t
                && r.unwrap().2 == pos + enc_payload(t).len(),
        !is_anonymous ==> forall|nm: Seq<char>, t: TagV|
            #![trigger named_at(nbt@, pos as int, nm, t)]
            spec_type_byte(t) == tag_type && named_at(nbt@, pos as int, nm, t) ==> r is Ok
                && r.unwrap().0@ == nm && tag_view(r.unwrap().1) == t && r.unwrap().2 == pos
                + enc_name(nm).len() + enc_payload(t).len(),
        is_anonymous ==> forall|entries: Seq<(Seq<char>, TagV)>|
            #![trigger body_at(nbt@, pos as int, entries)]
            tag_type == 0x0a && body_at(nbt@, pos as int, entries) ==> r is Ok && r.unwrap().0@
                == Seq::<char>::empty() && tag_view(r.unwrap().1) == TagV::Compound(
                dedup_entries(entries),
            ) && r.unwrap().2 == pos + enc_entries(entries).len() + 1,
        !is_anonymous ==> forall|nm: Seq<char>, entries: Seq<(Seq<char>, TagV)>|
            #![trigger name_at(nbt@, pos as int, nm), dedup_entries(entries)]
            tag_type == 0x0a && name_at(nbt@, pos as int, nm) && body_at(
                nbt@,
                pos + enc_name(nm).len(),
                entries,
            ) ==> r is Ok && r.unwrap().0@ == nm && tag_view(r.unwrap().1) == TagV::Compound(
                dedup_entries(entries),
            ) && r.unwrap().2 == pos + enc_name(nm).len() + enc_entries(entries).len() + 1,
        tag_type > 0x0c ==> r is Err,
        is_anonymous && tag_type > 0x0c ==> r == Err::<(String, TagType, usize), NbtError>(
            NbtError::UnknownTagType(tag_type),
        ),
        !is_anonymous && pos + 2 > nbt@.len() ==> r == Err::<(String, TagType, usize), NbtError>(
            NbtError::TruncatedInput,
        ),
        is_anonymous && 0x01 <= tag_type <= 0x0c && pos + min_payload_len(tag_type) > nbt@.len()
            ==> r == Err::<(String, TagType, usize), NbtError>(NbtError::TruncatedInput),
{
    if is_anonymous {
        let (tag, end) = read_payload(nbt, pos, tag_type)?;
        let empty = String::new();
        Ok((empty, tag, end))
    } else {
        let (name, p2) = get_name(nbt, pos)?;
        let (tag, end) = read_payload(nbt, p2, tag_type)?;
        Ok((name, tag, end))
    }
}

/// Parse a whole raw document: the nameless root compound. Root-level names
/// may repeat; the last occurrence of each name wins.
fn parse_document(nbt: &[u8]) -> (r: Result<TagType, NbtError>)
    ensures
        forall|root: Seq<(Seq<char>, TagV)>|
            #![trigger enc_document(root)]
            doc_wf(root) && nbt@ == enc_document(root) ==> r is Ok && tag_view(r.unwrap())
                == TagV::Compound(dedup_entries(root)),
        forall|root: Seq<(Seq<char>, TagV)>|
            #![trigger enc_document(root)]
            doc_wf(root) && keys_unique(root) && nbt@ == enc_document(root) ==> r is Ok && tag_view(
                r.unwrap(),
            ) == TagV::Compound(root),
        nbt@.len() < 4 ==> r == Err::<TagType, NbtError>(NbtError::TruncatedInput),
{
    proof {
        assert forall|root: Seq<(Seq<char>, TagV)>|
            doc_wf(root) && nbt@ == enc_document(root) implies {
            &&& nbt@.len() >= 4
            &&& nbt@[0] == 0x0au8
            &&& nbt@[1] == 0x00u8
            &&& nbt@[2] == 0x00u8
            &&& body_at(nbt@, 3, root)
        } by {
            assert(enc_document(root) =~= seq![0x0au8, 0x00u8, 0x00u8] + (enc_entries(root)
                + seq![0x00u8]));
            assert(nbt@.subrange(0, nbt@.len() as int) =~= nbt@);
            assert(nbt@.len() == 3 + (enc_entries(root) + seq![0x00u8]).len());
            lemma_subrange_concat(
                nbt@,
                0,
                seq![0x0au8, 0x00u8, 0x00u8],
                enc_entries(root) + seq![0x00u8],
            );
            assert(nbt@.subrange(0, 3)[0] == nbt@[0]);
            assert(nbt@.subrange(0, 3)[1] == nbt@[1]);
            assert(nbt@.subrange(0, 3)[2] == nbt@[2]);
        }
    }
    if nbt.len() < 4 {
        return Err(NbtError::TruncatedInput);
    }
    let b0 = *slice_index_get(nbt, 0);
    let b1 = *slice_index_get(nbt, 1);
    let b2 = *slice_index_get(nbt, 2);
    if !(b0 == 0x0a && b1 == 0x00 && b2 == 0x00) {
        return Err(NbtError::MalformedEnvelope);
    }
    let (entries, _end) = read_body(nbt, 3)?;
    proof {
        crate::tag::lemma_tag_view_compound(entries);
        assert forall|root: Seq<(Seq<char>, TagV)>|
            doc_wf(root) && keys_unique(root) && nbt@ == enc_document(root) implies tag_view(
            TagType::Compound(entries),
        ) == TagV::Compound(root) by {
            lemma_dedup_unique(root);
        }
    }
    Ok(TagType::Compound(entries))
}

/// Decode a byte buffer into its root compound: detect the envelope,
/// decompress a gzip stream, and parse the raw tag bytes. Wherever the
/// buffer is the encoding of a valid tree — raw, or as a gzip stream of the
/// raw bytes — decoding succeeds and returns exactly that tree; a root name
/// occurring twice keeps only its last occurrence. A buffer whose leading
/// bytes fit neither envelope, or that claims gzip but cannot be
/// decompressed, fails as a malformed envelope.
pub fn nbt_to_json(nbt: &[u8]) -> (r: Result<TagType, NbtError>)
    ensures
        forall|root: Seq<(Seq<char>, TagV)>|
            #![trigger enc_document(root)]
            doc_wf(root) && nbt@ == enc_document(root) ==> r is Ok && tag_view(r.unwrap())
                == TagV::Compound(dedup_entries(root)),
        forall|root: Seq<(Seq<char>, TagV)>|
            #![trigger enc_document(root)]
            doc_wf(root) && keys_unique(root) && nbt@ == enc_document(root) ==> r is Ok && tag_view(
                r.unwrap(),
            ) == TagV::Compound(root),
        forall|root: Seq<(Seq<char>, TagV)>|
            #![trigger enc_document(root)]
            doc_wf(root) && gzip_prefix(nbt@) && gunzip_of(nbt@) == Some(enc_document(root)) ==> r
                is Ok && tag_view(r.unwrap()) == TagV::Compound(dedup_entries(root)),
        forall|root: Seq<(Seq<char>, TagV)>|
            #![trigger enc_document(root)]
            doc_wf(root) && keys_unique(root) && gzip_prefix(nbt@) && gunzip_of(nbt@) == Some(
                enc_document(root),
            ) ==> r is Ok && tag_view(r.unwrap()) == TagV::Compound(root),
        !raw_prefix(nbt@) && !gzip_prefix(nbt@) ==> r == Err::<TagType, NbtError>(
            NbtError::MalformedEnvelope,
        ),
        gzip_prefix(nbt@) && gunzip_of(nbt@) is None ==> r == Err::<TagType, NbtError>(
            NbtError::MalformedEnvelope,
        ),
        raw_prefix(nbt@) && nbt@.len() < 4 ==> r == Err::<TagType, NbtError>(
            NbtError::TruncatedInput,
        ),
{
    proof {
        assert forall|root: Seq<(Seq<char>, TagV)>|
            doc_wf(root) && nbt@ == enc_document(root) implies raw_prefix(nbt@) by {
            assert(enc_document(root) =~= seq![0x0au8, 0x00u8, 0x00u8] + (enc_entries(root)
                + seq![0x00u8]));
            assert(nbt@[0] == 0x0au8 && nbt@[1] == 0x00u8);
        }
    }
    let ft = match crate::get_file_type(nbt) {
        Ok(v) => v,
        Err(e) => {
            return Err(e);
        },
    };
    match ft {
        FileType::Raw => parse_document(nbt),
        FileType::GZip => {
            let buf = match gzip_decompress(nbt) {
                Some(v) => v,
                None => {
                    return Err(NbtError::MalformedEnvelope);
                },
            };
            parse_document(buf.as_slice())
        },
    }
}

} // verus!
