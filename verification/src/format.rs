//! The wire format of a tag tree, as a mathematical function from trees to
//! byte sequences, together with the conditions under which a tree can be
//! written and read back.

use crate::mutf8::mutf8_of;
use crate::tag::{spec_type_byte, TagV};
use crate::wire::{be16, be32, be64};
use vstd::prelude::*;

verus! {

broadcast use vstd::seq::group_seq_axioms;

/// The type byte a list declares for its elements: that of its first
/// element, or the terminator byte for an empty list.
pub open spec fn elem_type_byte(es: Seq<TagV>) -> u8 {
    if es.len() == 0 {
        0x00u8
    } else {
        spec_type_byte(es[0])
    }
}

/// The name field of a named tag: a big-endian 16-bit byte length, then the
/// modified-UTF-8 bytes of the name.
pub open spec fn enc_name(nm: Seq<char>) -> Seq<u8> {
    be16(mutf8_of(nm).len() as u16) + mutf8_of(nm)
}

/// The payload bytes of a byte-array: each element reinterpreted unsigned.
pub open spec fn enc_i8s(v: Seq<i8>) -> Seq<u8> {
    Seq::new(v.len(), |i: int| v[i] as u8)
}

/// The payload bytes of an int-array body: each element big-endian.
pub open spec fn enc_i32s(v: Seq<i32>) -> Seq<u8>
    decreases v.len(),
{
    if v.len() == 0 {
        Seq::empty()
    } else {
        be32(v[0] as u32) + enc_i32s(v.drop_first())
    }
}

/// The payload bytes of a long-array body: each element big-endian.
pub open spec fn enc_i64s(v: Seq<i64>) -> Seq<u8>
    decreases v.len(),
{
    if v.len() == 0 {
        Seq::empty()
    } else {
        be64(v[0] as u64) + enc_i64s(v.drop_first())
    }
}

/// The payload bytes of a tag: what follows its type byte and name on the
/// wire.
pub open spec fn enc_payload(t: TagV) -> Seq<u8>
    decreases t,
{
    match t {
        TagV::End => Seq::empty(),
        TagV::Byte(v) => seq![v as u8],
        TagV::Short(v) => be16(v as u16),
        TagV::Int(v) => be32(v as u32),
        TagV::Long(v) => be64(v as u64),
        TagV::Float(b) => be32(b),
        TagV::Double(b) => be64(b),
        TagV::ByteArray(v) => be32(v.len() as u32) + enc_i8s(v),
        TagV::Str(s) => be16(mutf8_of(s).len() as u16) + mutf8_of(s),
        TagV::List(es) => seq![elem_type_byte(es)] + be32(es.len() as u32) + enc_elems(es),
        TagV::Compound(entries) => enc_entries(entries) + seq![0x00u8],
        TagV::IntArray(v) => be32(v.len() as u32) + enc_i32s(v),
        TagV::LongArray(v) => be32(v.len() as u32) + enc_i64s(v),
    }
}

/// The payloads of a list's elements, in order; list elements are anonymous
/// and carry no type byte or name of their own.
pub open spec fn enc_elems(es: Seq<TagV>) -> Seq<u8>
    decreases es,
{
    if es.len() == 0 {
        Seq::empty()
    } else {
        enc_payload(es[0]) + enc_elems(es.drop_first())
    }
}

/// The body of a compound: each child as type byte, name, payload, in order,
/// without the closing terminator.
pub open spec fn enc_entries(entries: Seq<(Seq<char>, TagV)>) -> Seq<u8>
    decreases entries,
{
    if entries.len() == 0 {
        Seq::empty()
    } else {
        seq![spec_type_byte(entries[0].1)] + enc_name(entries[0].0) + enc_payload(entries[0].1)
            + enc_entries(entries.drop_first())
    }
}

/// A whole document: a compound type byte, a zero name length, the root
/// compound's body, and its terminator.
pub open spec fn enc_document(root: Seq<(Seq<char>, TagV)>) -> Seq<u8> {
    seq![0x0au8, 0x00u8, 0x00u8] + enc_entries(root) + seq![0x00u8]
}

/// Whether a tag can be written: the terminator stands for no value, every
/// list is homogeneous, and every count or name length fits its wire field.
pub open spec fn encodable(t: TagV) -> bool
    decreases t,
{
    match t {
        TagV::End => false,
        TagV::Byte(_) => true,
        TagV::Short(_) => true,
        TagV::Int(_) => true,
        TagV::Long(_) => true,
        TagV::Float(_) => true,
        TagV::Double(_) => true,
        TagV::ByteArray(v) => v.len() <= 0x7fffffff,
        TagV::Str(s) => mutf8_of(s).len() <= 0xffff,
        TagV::List(es) => es.len() <= 0x7fffffff && elems_encodable(es, elem_type_byte(es)),
        TagV::Compound(entries) => entries_encodable(entries),
        TagV::IntArray(v) => v.len() <= 0x7fffffff,
        TagV::LongArray(v) => v.len() <= 0x7fffffff,
    }
}

/// Whether every element of a list can be written and carries the list's
/// declared type byte.
pub open spec fn elems_encodable(es: Seq<TagV>, etb: u8) -> bool
    decreases es,
{
    if es.len() == 0 {
        true
    } else {
        encodable(es[0]) && spec_type_byte(es[0]) == etb && elems_encodable(es.drop_first(), etb)
    }
}

/// Whether every child of a compound can be written, with a name that fits
/// its length field.
pub open spec fn entries_encodable(entries: Seq<(Seq<char>, TagV)>) -> bool
    decreases entries,
{
    if entries.len() == 0 {
        true
    } else {
        encodable(entries[0].1) && mutf8_of(entries[0].0).len() <= 0xffff && entries_encodable(
            entries.drop_first(),
        )
    }
}

/// No two children of one compound share a name.
pub open spec fn keys_unique(entries: Seq<(Seq<char>, TagV)>) -> bool {
    forall|i: int, j: int| 0 <= i < j < entries.len() ==> entries[i].0 != entries[j].0
}

/// Every compound anywhere in the tree has uniquely named children.
pub open spec fn nodup_keys(t: TagV) -> bool
    decreases t,
{
    match t {
        TagV::List(es) => elems_nodup(es),
        TagV::Compound(entries) => keys_unique(entries) && entries_nodup(entries),
        _ => true,
    }
}

/// Every element of a list satisfies `nodup_keys`.
pub open spec fn elems_nodup(es: Seq<TagV>) -> bool
    decreases es,
{
    if es.len() == 0 {
        true
    } else {
        nodup_keys(es[0]) && elems_nodup(es.drop_first())
    }
}

/// Every child of a compound satisfies `nodup_keys`.
pub open spec fn entries_nodup(entries: Seq<(Seq<char>, TagV)>) -> bool
    decreases entries,
{
    if entries.len() == 0 {
        true
    } else {
        nodup_keys(entries[0].1) && entries_nodup(entries.drop_first())
    }
}

/// A valid tag tree: it can be written, and reading the bytes back yields
/// the same tree because no compound child is overwritten by a duplicate.
pub open spec fn round_trippable(t: TagV) -> bool {
    encodable(t) && nodup_keys(t)
}

} // verus!
