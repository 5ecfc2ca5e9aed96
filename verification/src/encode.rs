//! The binary encoder: serializing a tag tree into wire bytes.

use crate::format::{
    elem_type_byte, elems_encodable, enc_document, enc_elems, enc_entries, enc_i32s, enc_i64s,
    enc_i8s, enc_name, enc_payload, encodable, entries_encodable,
};
use crate::gzip::{gunzip_of, gzip_compress};
use crate::mutf8::{mutf8_encode, mutf8_of};
use crate::tag::{elems_view, entries_view, spec_type_byte, tag_view, TagType, TagV};
use crate::wire::{be16, be32, be64, put_u16, put_u32, put_u64};
use crate::{gzip_prefix, FileType, TagResolvingError};
use vstd::prelude::*;

verus! {

broadcast use {vstd::seq::group_seq_axioms, vstd::std_specs::vec::group_vec_axioms};

/// Append the name field of a named tag: length prefix, then the name's
/// modified-UTF-8 bytes. Fails exactly when the encoded name cannot fit the
/// 16-bit length field.
fn put_name(buf: &mut Vec<u8>, name: &String) -> (r: Result<(), TagResolvingError>)
    ensures
        r is Ok <==> mutf8_of(name@).len() <= 0xffff,
        r is Ok ==> final(buf)@ == old(buf)@ + enc_name(name@),
{
    let mut encoded = mutf8_encode(name.as_str());
    if encoded.len() > 0xffff {
        return Err(TagResolvingError::UnsupportedValue);
    }
    put_u16(buf, encoded.len() as u16);
    buf.append(&mut encoded);
    proof {
        assert(buf@ =~= old(buf)@ + enc_name(name@));
    }
    Ok(())
}

/// Append a byte-array payload: count, then each element.
#[verifier::loop_isolation(false)]
fn put_i8s(buf: &mut Vec<u8>, v: &Vec<i8>) -> (r: Result<(), TagResolvingError>)
    ensures
        r is Ok <==> v@.len() <= 0x7fffffff,
        r is Ok ==> final(buf)@ == old(buf)@ + be32(v@.len() as u32) + enc_i8s(v@),
{
    if v.len() > 0x7fffffff {
        return Err(TagResolvingError::UnsupportedValue);
    }
    put_u32(buf, v.len() as u32);
    let ghost buf1 = buf@;
    let mut i: usize = 0;
    while i < v.len()
        invariant
            i <= v@.len(),
            buf@ == buf1 + enc_i8s(v@.take(i as int)),
        decreases v@.len() - i,
    {
        buf.push(v[i] as u8);
        proof {
            assert(buf@ =~= buf1 + enc_i8s(v@.take(i + 1)));
        }
        i = i + 1;
    }
    proof {
        assert(v@.take(v@.len() as int) =~= v@);
        assert(buf@ =~= old(buf)@ + be32(v@.len() as u32) + enc_i8s(v@));
    }
    Ok(())
}

/// Append an int-array payload: count, then each element big-endian.
#[verifier::loop_isolation(false)]
fn put_i32s(buf: &mut Vec<u8>, v: &Vec<i32>) -> (r: Result<(), TagResolvingError>)
    ensures
        r is Ok <==> v@.len() <= 0x7fffffff,
        r is Ok ==> final(buf)@ == old(buf)@ + be32(v@.len() as u32) + enc_i32s(v@),
{
    if v.len() > 0x7fffffff {
        return Err(TagResolvingError::UnsupportedValue);
    }
    put_u32(buf, v.len() as u32);
    let ghost buf1 = buf@;
    proof {
        assert(v@.skip(0) =~= v@);
    }
    let mut i: usize = 0;
    while i < v.len()
        invariant
            i <= v@.len(),
            buf@ + enc_i32s(v@.skip(i as int)) == buf1 + enc_i32s(v@),
        decreases v@.len() - i,
    {
        let ghost bufb = buf@;
        put_u32(buf, v[i] as u32);
        proof {
            assert(v@.skip(i as int).drop_first() =~= v@.skip(i + 1));
            assert(buf@ + enc_i32s(v@.skip(i + 1)) =~= bufb + enc_i32s(v@.skip(i as int)));
        }
        i = i + 1;
    }
    proof {
        assert(v@.skip(v@.len() as int) =~= Seq::<i32>::empty());
        assert(buf@ + Seq::<u8>::empty() =~= buf@);
        assert(buf@ =~= old(buf)@ + be32(v@.len() as u32) + enc_i32s(v@));
    }
    Ok(())
}

/// Append a long-array payload: count, then each element big-endian.
#[verifier::loop_isolation(false)]
fn put_i64s(buf: &mut Vec<u8>, v: &Vec<i64>) -> (r: Result<(), TagResolvingError>)
    ensures
        r is Ok <==> v@.len() <= 0x7fffffff,
        r is Ok ==> final(buf)@ == old(buf)@ + be32(v@.len() as u32) + enc_i64s(v@),
{
    if v.len() > 0x7fffffff {
        return Err(TagResolvingError::UnsupportedValue);
    }
    put_u32(buf, v.len() as u32);
    let ghost buf1 = buf@;
    proof {
        assert(v@.skip(0) =~= v@);
    }
    let mut i: usize = 0;
    while i < v.len()
        invariant
            i <= v@.len(),
            buf@ + enc_i64s(v@.skip(i as int)) == buf1 + enc_i64s(v@),
        decreases v@.len() - i,
    {
        let ghost bufb = buf@;
        put_u64(buf, v[i] as u64);
        proof {
            assert(v@.skip(i as int).drop_first() =~= v@.skip(i + 1));
            assert(buf@ + enc_i64s(v@.skip(i + 1)) =~= bufb + enc_i64s(v@.skip(i as int)));
        }
        i = i + 1;
    }
    proof {
        assert(v@.skip(v@.len() as int) =~= Seq::<i64>::empty());
        assert(buf@ + Seq::<u8>::empty() =~= buf@);
        assert(buf@ =~= old(buf)@ + be32(v@.len() as u32) + enc_i64s(v@));
    }
    Ok(())
}

/// Append a list payload: the declared element type byte, the count, then
/// each element's bare payload. Fails exactly when the list is not encodable.
#[verifier::loop_isolation(false)]
fn walk_list(buf: &mut Vec<u8>, v: &Vec<TagType>) -> (r: Result<(), TagResolvingError>)
    ensures
        r is Ok <==> encodable(TagV::List(elems_view(v@))),
        r is Ok ==> final(buf)@ == old(buf)@ + enc_payload(TagV::List(elems_view(v@))),
    decreases *v, 1int,
{
    let ghost es = elems_view(v@);
    if v.len() > 0x7fffffff {
        return Err(TagResolvingError::UnsupportedValue);
    }
    let etb: u8 = if v.len() == 0 {
        0x00
    } else {
        v[0].type_byte()
    };
    proof {
        assert(etb == elem_type_byte(es));
    }
    buf.push(etb);
    put_u32(buf, v.len() as u32);
    let ghost buf1 = buf@;
    proof {
        assert(es.skip(0) =~= es);
    }
    let mut i: usize = 0;
    while i < v.len()
        invariant
            i <= v@.len(),
            buf@ + enc_elems(es.skip(i as int)) == buf1 + enc_elems(es),
            elems_encodable(es, etb) <==> elems_encodable(es.skip(i as int), etb),
        decreases v@.len() - i,
    {
        proof {
            assert(es[i as int] == tag_view(v@[i as int]));
            assert(es.skip(i as int).len() > 0);
            assert(es.skip(i as int)[0] == es[i as int]);
            assert(es.skip(i as int).drop_first() =~= es.skip(i + 1));
        }
        if v[i].type_byte() != etb {
            proof {
                assert(!elems_encodable(es.skip(i as int), etb));
                assert(!encodable(TagV::List(es)));
            }
            return Err(TagResolvingError::UnsupportedValue);
        }
        let ghost bufb = buf@;
        let r = walk_enc(buf, None, &v[i]);
        if r.is_err() {
            proof {
                assert(!encodable(es[i as int]));
                assert(!elems_encodable(es.skip(i as int), etb));
                assert(!encodable(TagV::List(es)));
            }
            return Err(TagResolvingError::UnsupportedValue);
        }
        proof {
            assert(enc_elems(es.skip(i as int)) == enc_payload(es[i as int]) + enc_elems(
                es.skip(i + 1),
            ));
            assert(buf@ + enc_elems(es.skip(i + 1)) =~= bufb + enc_elems(es.skip(i as int)));
        }
        i = i + 1;
    }
    proof {
        assert(es.skip(es.len() as int) =~= Seq::<TagV>::empty());
        assert(elems_encodable(es.skip(es.len() as int), etb));
        assert(buf@ + Seq::<u8>::empty() =~= buf@);
        assert(buf@ =~= old(buf)@ + enc_payload(TagV::List(es)));
        assert(encodable(TagV::List(es)));
    }
    Ok(())
}

/// Append a compound body without its terminator: each named child in order.
/// Fails exactly when some child is not encodable or has a name that does
/// not fit its length field.
#[verifier::loop_isolation(false)]
fn walk_entries(buf: &mut Vec<u8>, v: &Vec<(String, TagType)>) -> (r: Result<
    (),
    TagResolvingError,
>)
    ensures
        r is Ok <==> entries_encodable(entries_view(v@)),
        r is Ok ==> final(buf)@ == old(buf)@ + enc_entries(entries_view(v@)),
    decreases *v, 1int,
{
    let ghost entries = entries_view(v@);
    let ghost buf1 = buf@;
    proof {
        assert(entries.skip(0) =~= entries);
    }
    let mut i: usize = 0;
    while i < v.len()
        invariant
            i <= v@.len(),
            buf@ + enc_entries(entries.skip(i as int)) == buf1 + enc_entries(entries),
            entries_encodable(entries) <==> entries_encodable(entries.skip(i as int)),
        decreases v@.len() - i,
    {
        let ghost bufb = buf@;
        proof {
            assert(entries[i as int] == (v@[i as int].0@, tag_view(v@[i as int].1)));
            assert(entries.skip(i as int).len() > 0);
            assert(entries.skip(i as int)[0] == entries[i as int]);
            assert(entries.skip(i as int).drop_first() =~= entries.skip(i + 1));
        }
        let entry = &v[i];
        let r = walk_enc(buf, Some(&entry.0), &entry.1);
        if r.is_err() {
            proof {
                assert(!(encodable(entries[i as int].1) && mutf8_of(entries[i as int].0).len()
                    <= 0xffff));
                assert(!entries_encodable(entries.skip(i as int)));
                assert(!entries_encodable(entries));
            }
            return Err(TagResolvingError::UnsupportedValue);
        }
        proof {
            assert(encodable(entries[i as int].1));
            assert(mutf8_of(entries[i as int].0).len() <= 0xffff);
            assert(enc_entries(entries.skip(i as int)) == seq![
                spec_type_byte(entries[i as int].1),
            ] + enc_name(entries[i as int].0) + enc_payload(entries[i as int].1) + enc_entries(
                entries.skip(i + 1),
            ));
            assert(buf@ + enc_entries(entries.skip(i + 1)) =~= bufb + enc_entries(
                entries.skip(i as int),
            ));
        }
        i = i + 1;
    }
    proof {
        assert(entries.skip(entries.len() as int) =~= Seq::<(Seq<char>, TagV)>::empty());
        assert(entries_encodable(entries.skip(entries.len() as int)));
        assert(buf@ + Seq::<u8>::empty() =~= buf@);
        assert(buf@ =~= old(buf)@ + enc_entries(entries));
        assert(entries_encodable(entries));
    }
    Ok(())
}

/// Serialize one tag: anonymous (a bare payload) when `name` is absent, and
/// type byte, name field, payload when it is present. Fails exactly when the
/// tag is not encodable or the name does not fit its length field; the
/// buffer's contents are unspecified after a failure.
pub(crate) fn walk_enc(buf: &mut Vec<u8>, name: Option<&String>, t: &TagType) -> (r: Result<
    (),
    TagResolvingError,
>)
    ensures
        r is Ok <==> encodable(tag_view(*t)) && (name is Some ==> mutf8_of(name.unwrap()@).len()
            <= 0xffff),
        r is Ok && name is None ==> final(buf)@ == old(buf)@ + enc_payload(tag_view(*t)),
        r is Ok && name is Some ==> final(buf)@ == old(buf)@ + seq![
            spec_type_byte(tag_view(*t)),
        ] + enc_name(name.unwrap()@) + enc_payload(tag_view(*t)),
    decreases *t, 0int,
{
    if let Some(nm) = name {
        buf.push(t.type_byte());
        put_name(buf, nm)?;
    }
    let ghost buf0 = buf@;
    match t {
        TagType::End => {
            return Err(TagResolvingError::UnsupportedValue);
        },
        TagType::Byte(v) => {
            buf.push(*v as u8);
            proof {
                assert(buf@ =~= buf0 + enc_payload(tag_view(*t)));
            }
        },
        TagType::Short(v) => {
            put_u16(buf, *v as u16);
        },
        TagType::Int(v) => {
            put_u32(buf, *v as u32);
        },
        TagType::Long(v) => {
            put_u64(buf, *v as u64);
        },
        TagType::Float(b) => {
            put_u32(buf, *b);
        },
        TagType::Double(b) => {
            put_u64(buf, *b);
        },
        TagType::ByteArray(v) => {
            put_i8s(buf, v)?;
        },
        TagType::Str(s) => {
            let mut encoded = mutf8_encode(s.as_str());
            if encoded.len() > 0xffff {
                return Err(TagResolvingError::UnsupportedValue);
            }
            put_u16(buf, encoded.len() as u16);
            buf.append(&mut encoded);
            proof {
                assert(buf@ =~= buf0 + enc_payload(tag_view(*t)));
            }
        },
        TagType::List(v) => {
            proof {
                assert(*t == TagType::List(*v));
                crate::tag::lemma_tag_view_list(*v);
            }
            walk_list(buf, v)?;
        },
        TagType::Compound(v) => {
            proof {
                assert(*t == TagType::Compound(*v));
                crate::tag::lemma_tag_view_compound(*v);
            }
            walk_entries(buf, v)?;
            buf.push(0x00);
            proof {
                assert(buf@ =~= buf0 + enc_payload(tag_view(*t)));
            }
        },
        TagType::IntArray(v) => {
            put_i32s(buf, v)?;
        },
        TagType::LongArray(v) => {
            put_i64s(buf, v)?;
        },
    }
    proof {
        if name is Some {
            assert(buf@ =~= old(buf)@ + seq![spec_type_byte(tag_view(*t))] + enc_name(
                name.unwrap()@,
            ) + enc_payload(tag_view(*t)));
        }
    }
    Ok(())
}

/// Serialize a root compound, given as its named children in order, into a
/// byte buffer: raw tag bytes, or a gzip stream of them when the requested
/// envelope is gzip. Fails exactly when some tag in the tree cannot be
/// written.
pub fn to_nbt(json: &Vec<(String, TagType)>, file_type: FileType) -> (r: Result<
    Vec<u8>,
    TagResolvingError,
>)
    ensures
        r is Ok <==> entries_encodable(entries_view(json@)),
        r is Ok && file_type == FileType::Raw ==> r.unwrap()@ == enc_document(entries_view(json@)),
        r is Ok && file_type == FileType::GZip ==> gzip_prefix(r.unwrap()@) && gunzip_of(
            r.unwrap()@,
        ) == Some(enc_document(entries_view(json@))),
{
    let mut buf: Vec<u8> = Vec::new();
    buf.push(0x0a);
    buf.push(0x00);
    buf.push(0x00);
    let r = walk_entries(&mut buf, json);
    if r.is_err() {
        return Err(TagResolvingError::UnsupportedValue);
    }
    buf.push(0x00);
    proof {
        assert(buf@ =~= enc_document(entries_view(json@)));
    }
    match file_type {
        FileType::Raw => Ok(buf),
        FileType::GZip => Ok(gzip_compress(buf.as_slice())),
    }
}

} // verus!
