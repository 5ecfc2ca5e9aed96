//! The JSON projector: a decoded tag tree becomes a JSON document, with a
//! type-disambiguation suffix joined to a key wherever JSON's own types
//! could not recover the tag type on a later encode.

use crate::format::{elem_type_byte, enc_document};
use crate::gzip::gunzip_of;
use crate::jsonval::{
    jelems_view, jmembers_view, json_view, spec_double_number, spec_float_number, spec_int_number,
    JsonNumber, JsonV, JsonValue,
};
use crate::tag::{
    elems_view, entries_view, long_number_view, spec_long_number, spec_type_byte, spec_type_name,
    tag_view, LongNumber, LongNumberV, TagType, TagV,
};
use crate::{gzip_prefix, NbtError};
use vstd::prelude::*;

verus! {

broadcast use {vstd::seq::group_seq_axioms, vstd::std_specs::vec::group_vec_axioms};

/// The key suffix that marks a tag's type in JSON. Integers, doubles,
/// strings and compounds need none; a list names its element type, and
/// nested lists chain the suffixes of their elements.
pub open spec fn proj_suffix(t: TagV) -> Seq<char>
    decreases t,
{
    match t {
        TagV::Byte(_) => seq![';', 'B'],
        TagV::Short(_) => seq![';', 'S'],
        TagV::Long(_) => seq![';', 'L'],
        TagV::Float(_) => seq![';', 'F'],
        TagV::ByteArray(_) => seq![';', 'B'],
        TagV::IntArray(_) => seq![';', 'I'],
        TagV::LongArray(_) => seq![';', 'L'],
        TagV::List(es) => seq![';'] + spec_type_name(elem_type_byte(es)) + (if es.len() > 0
            && es[0] is List {
            proj_suffix(es[0])
        } else {
            Seq::empty()
        }),
        _ => Seq::empty(),
    }
}

/// The JSON presentation of a long value: a number within the safe-integer
/// range, its decimal digits beyond it.
pub open spec fn proj_long(v: i64) -> JsonV {
    match spec_long_number(v) {
        LongNumberV::Number(x) => JsonV::Num(spec_int_number(x)),
        LongNumberV::BigInt(s) => JsonV::Str(s),
    }
}

/// The JSON value a tag projects to.
pub open spec fn proj_value(t: TagV) -> JsonV
    decreases t,
{
    match t {
        TagV::End => JsonV::Null,
        TagV::Byte(v) => JsonV::Num(spec_int_number(v as i64)),
        TagV::Short(v) => JsonV::Num(spec_int_number(v as i64)),
        TagV::Int(v) => JsonV::Num(spec_int_number(v as i64)),
        TagV::Long(v) => proj_long(v),
        TagV::Float(b) => JsonV::Num(spec_float_number(b)),
        TagV::Double(b) => JsonV::Num(spec_double_number(b)),
        TagV::ByteArray(v) => JsonV::Array(
            Seq::new(v.len(), |i: int| JsonV::Num(spec_int_number(v[i] as i64))),
        ),
        TagV::Str(s) => JsonV::Str(s),
        TagV::List(es) => JsonV::Array(
            Seq::new(
                es.len(),
                |i: int|
                    if 0 <= i < es.len() {
                        proj_value(es[i])
                    } else {
                        JsonV::Null
                    },
            ),
        ),
        TagV::Compound(entries) => JsonV::Object(proj_entries(entries)),
        TagV::IntArray(v) => JsonV::Array(
            Seq::new(v.len(), |i: int| JsonV::Num(spec_int_number(v[i] as i64))),
        ),
        TagV::LongArray(v) => JsonV::Array(Seq::new(v.len(), |i: int| proj_long(v[i]))),
    }
}

/// The members a compound's children project to: each key is the child's
/// name joined with its type suffix.
pub open spec fn proj_entries(entries: Seq<(Seq<char>, TagV)>) -> Seq<(Seq<char>, JsonV)>
    decreases entries,
{
    Seq::new(
        entries.len(),
        |i: int|
            if 0 <= i < entries.len() {
                (entries[i].0 + proj_suffix(entries[i].1), proj_value(entries[i].1))
            } else {
                (Seq::empty(), JsonV::Null)
            },
    )
}

/// The type suffix of a tag, as a string.
fn suffix_str(t: &TagType) -> (r: String)
    ensures
        r@ == proj_suffix(tag_view(*t)),
    decreases *t,
{
    proof {
        reveal_strlit(";B");
        reveal_strlit(";S");
        reveal_strlit(";L");
        reveal_strlit(";F");
        reveal_strlit(";I");
        reveal_strlit("");
        reveal_strlit(";");
    }
    match t {
        TagType::Byte(_) => {
            let r = ";B".to_owned();
            proof {
                assert(r@ =~= proj_suffix(tag_view(*t)));
            }
            r
        },
        TagType::Short(_) => {
            let r = ";S".to_owned();
            proof {
                assert(r@ =~= proj_suffix(tag_view(*t)));
            }
            r
        },
        TagType::Long(_) => {
            let r = ";L".to_owned();
            proof {
                assert(r@ =~= proj_suffix(tag_view(*t)));
            }
            r
        },
        TagType::Float(_) => {
            let r = ";F".to_owned();
            proof {
                assert(r@ =~= proj_suffix(tag_view(*t)));
            }
            r
        },
        TagType::ByteArray(_) => {
            let r = ";B".to_owned();
            proof {
                assert(r@ =~= proj_suffix(tag_view(*t)));
            }
            r
        },
        TagType::IntArray(_) => {
            let r = ";I".to_owned();
            proof {
                assert(r@ =~= proj_suffix(tag_view(*t)));
            }
            r
        },
        TagType::LongArray(_) => {
            let r = ";L".to_owned();
            proof {
                assert(r@ =~= proj_suffix(tag_view(*t)));
            }
            r
        },
        TagType::List(v) => {
            proof {
                assert(*t == TagType::List(*v));
                crate::tag::lemma_tag_view_list(*v);
            }
            let etb: u8 = if v.len() == 0 {
                0x00
            } else {
                v[0].type_byte()
            };
            let ghost es = elems_view(v@);
            proof {
                assert(etb == elem_type_byte(es));
            }
            let mut r = ";".to_owned();
            let name = match TagType::u8_to_str(etb) {
                Ok(s) => s,
                Err(_) => "",
            };
            r.append(name);
            if v.len() > 0 && etb == 0x09 {
                let inner = suffix_str(&v[0]);
                r.append(inner.as_str());
                proof {
                    assert(es[0] == tag_view(v@[0]));
                    assert(r@ =~= proj_suffix(tag_view(*t)));
                }
            } else {
                proof {
                    if es.len() > 0 {
                        assert(es[0] == tag_view(v@[0]));
                    }
                    assert(r@ + Seq::<char>::empty() =~= r@);
                    assert(r@ =~= proj_suffix(tag_view(*t)));
                }
            }
            r
        },
        _ => {
            let r = "".to_owned();
            proof {
                assert(r@ =~= proj_suffix(tag_view(*t)));
            }
            r
        },
    }
}

/// The JSON value a long projects to.
fn project_long(v: i64) -> (r: JsonValue)
    ensures
        json_view(r) == proj_long(v),
{
    match LongNumber::from_i64(v) {
        LongNumber::Number(x) => JsonValue::Num(JsonNumber::from_int(x)),
        LongNumber::BigInt(s) => JsonValue::Str(s),
    }
}

/// Project one tag into its JSON value.
#[verifier::loop_isolation(false)]
#[verifier::rlimit(100)]
pub(crate) fn project(t: &TagType) -> (r: JsonValue)
    ensures
        json_view(r) == proj_value(tag_view(*t)),
    decreases *t,
{
    match t {
        TagType::End => JsonValue::Null,
        TagType::Byte(v) => JsonValue::Num(JsonNumber::from_int(*v as i64)),
        TagType::Short(v) => JsonValue::Num(JsonNumber::from_int(*v as i64)),
        TagType::Int(v) => JsonValue::Num(JsonNumber::from_int(*v as i64)),
        TagType::Long(v) => project_long(*v),
        TagType::Float(b) => JsonValue::Num(
            JsonNumber { int_val: None, is_float: true, f64_bits: None, f32_bits: Some(*b) },
        ),
        TagType::Double(b) => JsonValue::Num(
            JsonNumber { int_val: None, is_float: true, f64_bits: Some(*b), f32_bits: None },
        ),
        TagType::ByteArray(v) => {
            let mut out: Vec<JsonValue> = Vec::new();
            let mut i: usize = 0;
            while i < v.len()
                invariant
                    i <= v@.len(),
                    out@.len() == i,
                    forall|k: int|
                        0 <= k < i ==> json_view(#[trigger] out@[k]) == JsonV::Num(
                            spec_int_number(v@[k] as i64),
                        ),
                decreases v@.len() - i,
            {
                out.push(JsonValue::Num(JsonNumber::from_int(v[i] as i64)));
                i = i + 1;
            }
            proof {
                crate::jsonval::lemma_json_view_array(out);
                assert(jelems_view(out@) =~= proj_value(tag_view(*t))->Array_0);
            }
            JsonValue::Array(out)
        },
        TagType::Str(s) => JsonValue::Str(s.clone()),
        TagType::List(v) => {
            proof {
                assert(*t == TagType::List(*v));
                crate::tag::lemma_tag_view_list(*v);
            }
            let ghost es = elems_view(v@);
            let mut out: Vec<JsonValue> = Vec::new();
            let mut i: usize = 0;
            while i < v.len()
                invariant
                    i <= v@.len(),
                    out@.len() == i,
                    forall|k: int|
                        0 <= k < i ==> json_view(#[trigger] out@[k]) == proj_value(es[k]),
                decreases v@.len() - i,
            {
                proof {
                    assert(es[i as int] == tag_view(v@[i as int]));
                }
                let e = project(&v[i]);
                out.push(e);
                i = i + 1;
            }
            proof {
                crate::jsonval::lemma_json_view_array(out);
                assert(jelems_view(out@) =~= proj_value(tag_view(*t))->Array_0);
            }
            JsonValue::Array(out)
        },
        TagType::Compound(v) => {
            proof {
                assert(*t == TagType::Compound(*v));
                crate::tag::lemma_tag_view_compound(*v);
            }
            let ghost entries = entries_view(v@);
            let mut out: Vec<(String, JsonValue)> = Vec::new();
            let mut i: usize = 0;
            while i < v.len()
                invariant
                    i <= v@.len(),
                    out@.len() == i,
                    forall|k: int|
                        0 <= k < i ==> (#[trigger] out@[k]).0@ == entries[k].0 + proj_suffix(
                            entries[k].1,
                        ) && json_view(out@[k].1) == proj_value(entries[k].1),
                decreases v@.len() - i,
            {
                proof {
                    assert(entries[i as int] == (v@[i as int].0@, tag_view(v@[i as int].1)));
                }
                let entry = &v[i];
                let mut key = entry.0.clone();
                let sfx = suffix_str(&entry.1);
                key.append(sfx.as_str());
                let value = project(&entry.1);
                out.push((key, value));
                i = i + 1;
            }
            proof {
                crate::jsonval::lemma_json_view_object(out);
                assert(jmembers_view(out@) =~= proj_entries(entries));
            }
            JsonValue::Object(out)
        },
        TagType::IntArray(v) => {
            let mut out: Vec<JsonValue> = Vec::new();
            let mut i: usize = 0;
            while i < v.len()
                invariant
                    i <= v@.len(),
                    out@.len() == i,
                    forall|k: int|
                        0 <= k < i ==> json_view(#[trigger] out@[k]) == JsonV::Num(
                            spec_int_number(v@[k] as i64),
                        ),
                decreases v@.len() - i,
            {
                out.push(JsonValue::Num(JsonNumber::from_int(v[i] as i64)));
                i = i + 1;
            }
            proof {
                crate::jsonval::lemma_json_view_array(out);
                assert(jelems_view(out@) =~= proj_value(tag_view(*t))->Array_0);
            }
            JsonValue::Array(out)
        },
        TagType::LongArray(v) => {
            let mut out: Vec<JsonValue> = Vec::new();
            let mut i: usize = 0;
            while i < v.len()
                invariant
                    i <= v@.len(),
                    out@.len() == i,
                    forall|k: int|
                        0 <= k < i ==> json_view(#[trigger] out@[k]) == proj_long(v@[k]),
                decreases v@.len() - i,
            {
                let e = project_long(v[i]);
                out.push(e);
                i = i + 1;
            }
            proof {
                crate::jsonval::lemma_json_view_array(out);
                assert(jelems_view(out@) =~= proj_value(tag_view(*t))->Array_0);
            }
            JsonValue::Array(out)
        },
    }
}

/// Decode a byte buffer into a JSON document: detect the envelope, parse the
/// tag tree, and project it. Wherever the buffer encodes a valid tree, the
/// result is that tree's projection, a repeated root name keeping only its
/// last occurrence; a buffer fitting neither envelope, or claiming gzip
/// without being decodable, fails as a malformed envelope.
pub fn to_json(nbt: &[u8]) -> (r: Result<JsonValue, NbtError>)
    ensures
        forall|root: Seq<(Seq<char>, TagV)>|
            #![trigger enc_document(root)]
            crate::decode::doc_wf(root) && nbt@ == enc_document(root) ==> r is Ok && json_view(
                r.unwrap(),
            ) == JsonV::Object(proj_entries(crate::tag::dedup_entries(root))),
        forall|root: Seq<(Seq<char>, TagV)>|
            #![trigger enc_document(root)]
            crate::decode::doc_wf(root) && crate::format::keys_unique(root) && nbt@ == enc_document(
                root,
            ) ==> r is Ok && json_view(r.unwrap()) == JsonV::Object(proj_entries(root)),
        forall|root: Seq<(Seq<char>, TagV)>|
            #![trigger enc_document(root)]
            crate::decode::doc_wf(root) && gzip_prefix(nbt@) && gunzip_of(nbt@) == Some(
                enc_document(root),
            ) ==> r is Ok && json_view(r.unwrap()) == JsonV::Object(
                proj_entries(crate::tag::dedup_entries(root)),
            ),
        forall|root: Seq<(Seq<char>, TagV)>|
            #![trigger enc_document(root)]
            crate::decode::doc_wf(root) && crate::format::keys_unique(root) && gzip_prefix(nbt@)
                && gunzip_of(nbt@) == Some(enc_document(root)) ==> r is Ok && json_view(r.unwrap())
                == JsonV::Object(proj_entries(root)),
        !crate::raw_prefix(nbt@) && !gzip_prefix(nbt@) ==> r == Err::<JsonValue, NbtError>(
            NbtError::MalformedEnvelope,
        ),
        gzip_prefix(nbt@) && gunzip_of(nbt@) is None ==> r == Err::<JsonValue, NbtError>(
            NbtError::MalformedEnvelope,
        ),
{
    let root = match crate::decode::nbt_to_json(nbt) {
        Ok(v) => v,
        Err(e) => {
            return Err(e);
        },
    };
    let out = project(&root);
    Ok(out)
}

} // verus!
