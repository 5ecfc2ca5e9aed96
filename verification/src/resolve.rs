//! The type resolver: the inverse of the projector. It walks a JSON document
//! and rebuilds the tag tree, reading each key's type suffix and validating
//! every numeric value against the width the suffix declares.

use crate::jsonval::{jelems_view, jmembers_view, json_view, JsonNumber, JsonV, JsonValue};
use crate::tag::{
    elems_view, entries_view, first_key, spec_name_to_byte, tag_view, upsert, TagType, TagV,
};
use crate::TagResolvingError;
use vstd::prelude::*;
use vstd::string::StrSliceExecFns;

verus! {

broadcast use {vstd::seq::group_seq_axioms, vstd::std_specs::vec::group_vec_axioms};

/// The position of the first semicolon in a key, or the key's length when it
/// has none.
pub open spec fn first_semi(k: Seq<char>) -> int
    decreases k.len(),
{
    if k.len() == 0 {
        0
    } else if k[0] == ';' {
        0
    } else {
        1 + first_semi(k.drop_first())
    }
}

/// A key ends with a semicolon and the given marker character.
pub open spec fn ends2(k: Seq<char>, c: char) -> bool {
    k.len() >= 2 && k[k.len() - 2] == ';' && k[k.len() - 1] == c
}

/// Resolve a number under a key: no suffix means a 32-bit integer or a
/// double; a width suffix demands the value fit that width exactly.
pub open spec fn res_num(k: Seq<char>, n: JsonNumber) -> Option<(Seq<char>, TagV)> {
    if first_semi(k) >= k.len() {
        if n.is_float {
            match n.f64_bits {
                Some(b) => Some((k, TagV::Double(b))),
                None => None,
            }
        } else {
            match n.int_val {
                Some(v) => if -0x80000000 <= v < 0x80000000 {
                    Some((k, TagV::Int(v as i32)))
                } else {
                    None
                },
                None => None,
            }
        }
    } else {
        let nm = k.subrange(0, k.len() - 2);
        if ends2(k, 'B') {
            match n.int_val {
                Some(v) => if -0x80 <= v < 0x80 {
                    Some((nm, TagV::Byte(v as i8)))
                } else {
                    None
                },
                None => None,
            }
        } else if ends2(k, 'S') {
            match n.int_val {
                Some(v) => if -0x8000 <= v < 0x8000 {
                    Some((nm, TagV::Short(v as i16)))
                } else {
                    None
                },
                None => None,
            }
        } else if ends2(k, 'L') {
            match n.int_val {
                Some(v) => Some((nm, TagV::Long(v))),
                None => None,
            }
        } else if ends2(k, 'F') {
            match n.f32_bits {
                Some(b) => Some((nm, TagV::Float(b))),
                None => None,
            }
        } else {
            None
        }
    }
}

/// Resolve the elements of a byte-array: each must be an integral number
/// within the signed-byte range.
pub open spec fn res_bytes(elems: Seq<JsonV>) -> Option<Seq<i8>>
    decreases elems.len(),
{
    if elems.len() == 0 {
        Some(Seq::empty())
    } else {
        match elems[0] {
            JsonV::Num(n) => match n.int_val {
                Some(v) => if -0x80 <= v < 0x80 {
                    match res_bytes(elems.drop_first()) {
                        Some(rest) => Some(seq![v as i8] + rest),
                        None => None,
                    }
                } else {
                    None
                },
                None => None,
            },
            _ => None,
        }
    }
}

/// Resolve the elements of an int-array.
pub open spec fn res_ints(elems: Seq<JsonV>) -> Option<Seq<i32>>
    decreases elems.len(),
{
    if elems.len() == 0 {
        Some(Seq::empty())
    } else {
        match elems[0] {
            JsonV::Num(n) => match n.int_val {
                Some(v) => if -0x80000000 <= v < 0x80000000 {
                    match res_ints(elems.drop_first()) {
                        Some(rest) => Some(seq![v as i32] + rest),
                        None => None,
                    }
                } else {
                    None
                },
                None => None,
            },
            _ => None,
        }
    }
}

/// Resolve the elements of a long-array: integral numbers only.
pub open spec fn res_longs(elems: Seq<JsonV>) -> Option<Seq<i64>>
    decreases elems.len(),
{
    if elems.len() == 0 {
        Some(Seq::empty())
    } else {
        match elems[0] {
            JsonV::Num(n) => match n.int_val {
                Some(v) => match res_longs(elems.drop_first()) {
                    Some(rest) => Some(seq![v] + rest),
                    None => None,
                },
                None => None,
            },
            _ => None,
        }
    }
}

/// Resolve one list element against the list's declared element type byte;
/// `rem` is the rest of the suffix chain, for lists of lists.
pub open spec fn res_list_elem(etb: u8, rem: Seq<char>, e: JsonV) -> Option<TagV>
    decreases e, 2int,
{
    if etb == 0x01 {
        match e {
            JsonV::Num(n) => match n.int_val {
                Some(v) => if -0x80 <= v < 0x80 {
                    Some(TagV::Byte(v as i8))
                } else {
                    None
                },
                None => None,
            },
            _ => None,
        }
    } else if etb == 0x02 {
        match e {
            JsonV::Num(n) => match n.int_val {
                Some(v) => if -0x8000 <= v < 0x8000 {
                    Some(TagV::Short(v as i16))
                } else {
                    None
                },
                None => None,
            },
            _ => None,
        }
    } else if etb == 0x03 {
        match e {
            JsonV::Num(n) => match n.int_val {
                Some(v) => if -0x80000000 <= v < 0x80000000 {
                    Some(TagV::Int(v as i32))
                } else {
                    None
                },
                None => None,
            },
            _ => None,
        }
    } else if etb == 0x04 {
        match e {
            JsonV::Num(n) => match n.int_val {
                Some(v) => Some(TagV::Long(v)),
                None => None,
            },
            _ => None,
        }
    } else if etb == 0x05 {
        match e {
            JsonV::Num(n) => match n.f32_bits {
                Some(b) => Some(TagV::Float(b)),
                None => None,
            },
            _ => None,
        }
    } else if etb == 0x06 {
        match e {
            JsonV::Num(n) => match n.f64_bits {
                Some(b) => Some(TagV::Double(b)),
                None => None,
            },
            _ => None,
        }
    } else if etb == 0x07 {
        match e {
            JsonV::Array(elems) => match res_bytes(elems) {
                Some(v) => Some(TagV::ByteArray(v)),
                None => None,
            },
            _ => None,
        }
    } else if etb == 0x08 {
        match e {
            JsonV::Str(s) => Some(TagV::Str(s)),
            _ => None,
        }
    } else if etb == 0x09 {
        match e {
            JsonV::Array(elems) => res_list(rem, elems),
            _ => None,
        }
    } else if etb == 0x0a {
        match e {
            JsonV::Object(members) => match res_members(members) {
                Some(es) => Some(TagV::Compound(es)),
                None => None,
            },
            _ => None,
        }
    } else if etb == 0x0b {
        match e {
            JsonV::Array(elems) => match res_ints(elems) {
                Some(v) => Some(TagV::IntArray(v)),
                None => None,
            },
            _ => None,
        }
    } else if etb == 0x0c {
        match e {
            JsonV::Array(elems) => match res_longs(elems) {
                Some(v) => Some(TagV::LongArray(v)),
                None => None,
            },
            _ => None,
        }
    } else {
        None
    }
}

/// Resolve every element of a list against its declared type.
pub open spec fn res_elems(etb: u8, rem: Seq<char>, elems: Seq<JsonV>) -> Option<Seq<TagV>>
    decreases elems, 0int,
{
    if elems.len() == 0 {
        Some(Seq::empty())
    } else {
        match res_list_elem(etb, rem, elems[0]) {
            Some(t) => match res_elems(etb, rem, elems.drop_first()) {
                Some(rest) => Some(seq![t] + rest),
                None => None,
            },
            None => None,
        }
    }
}

/// Resolve a list from its suffix chain: the first segment names the element
/// type; what follows the next semicolon passes down to nested lists.
pub open spec fn res_list(vt: Seq<char>, elems: Seq<JsonV>) -> Option<TagV>
    decreases elems, 1int,
{
    let idx = first_semi(vt);
    let seg = vt.take(idx);
    let rem = if idx < vt.len() {
        vt.subrange(idx + 1, vt.len() as int)
    } else {
        Seq::empty()
    };
    match spec_name_to_byte(seg) {
        None => None,
        Some(etb) => if etb == 0x00 {
            if elems.len() == 0 {
                Some(TagV::List(Seq::empty()))
            } else {
                None
            }
        } else {
            match res_elems(etb, rem, elems) {
                Some(es) => Some(TagV::List(es)),
                None => None,
            }
        },
    }
}

/// Resolve one key/value pair of an object.
pub open spec fn res_value(k: Seq<char>, v: JsonV) -> Option<(Seq<char>, TagV)>
    decreases v, 3int,
{
    match v {
        JsonV::Null => None,
        JsonV::Bool(b) => Some(
            (
                k,
                TagV::Byte(
                    if b {
                        1
                    } else {
                        0
                    },
                ),
            ),
        ),
        JsonV::Num(n) => res_num(k, n),
        JsonV::Str(s) => Some((k, TagV::Str(s))),
        JsonV::Array(elems) => {
            let idx = first_semi(k);
            if idx >= k.len() {
                None
            } else {
                let nm = k.take(idx);
                let vt = k.subrange(idx + 1, k.len() as int);
                if vt.len() > 0 && vt[0] == 'B' {
                    match res_bytes(elems) {
                        Some(v) => Some((nm, TagV::ByteArray(v))),
                        None => None,
                    }
                } else if vt.len() > 0 && vt[0] == 'I' {
                    match res_ints(elems) {
                        Some(v) => Some((nm, TagV::IntArray(v))),
                        None => None,
                    }
                } else if vt.len() > 0 && vt[0] == 'L' {
                    match res_longs(elems) {
                        Some(v) => Some((nm, TagV::LongArray(v))),
                        None => None,
                    }
                } else if vt.len() >= 4 && vt.take(4) == seq!['T', 'A', 'G', '_'] {
                    match res_list(vt, elems) {
                        Some(t) => Some((nm, t)),
                        None => None,
                    }
                } else {
                    None
                }
            }
        },
        JsonV::Object(members) => match res_members(members) {
            Some(es) => Some((k, TagV::Compound(es))),
            None => None,
        },
    }
}

/// Resolve an object's members in order into a compound's children.
pub open spec fn res_members_acc(
    members: Seq<(Seq<char>, JsonV)>,
    acc: Seq<(Seq<char>, TagV)>,
) -> Option<Seq<(Seq<char>, TagV)>>
    decreases members, 4int,
{
    if members.len() == 0 {
        Some(acc)
    } else {
        match res_value(members[0].0, members[0].1) {
            Some((nm, t)) => res_members_acc(members.drop_first(), upsert(acc, nm, t)),
            None => None,
        }
    }
}

/// Resolve an object into a compound's children.
pub open spec fn res_members(members: Seq<(Seq<char>, JsonV)>) -> Option<Seq<(Seq<char>, TagV)>>
    decreases members, 5int,
{
    res_members_acc(members, Seq::empty())
}

/// The position of the first semicolon in a string, or its length.
fn find_semi(s: &str) -> (r: usize)
    ensures
        r == first_semi(s@),
        r <= s@.len(),
{
    let n = s.unicode_len();
    let mut i: usize = 0;
    proof {
        assert(s@.skip(0) =~= s@);
    }
    while i < n
        invariant
            i <= n,
            n == s@.len(),
            first_semi(s@) == i + first_semi(s@.skip(i as int)),
        decreases n - i,
    {
        let c = s.get_char(i);
        proof {
            assert(s@.skip(i as int)[0] == s@[i as int]);
            assert(s@.skip(i as int).drop_first() =~= s@.skip(i + 1));
        }
        if c == ';' {
            return i;
        }
        i = i + 1;
    }
    proof {
        assert(s@.skip(n as int) =~= Seq::<char>::empty());
    }
    n
}

/// Whether a string ends with a semicolon and the given marker.
fn str_ends2(s: &String, c: char) -> (r: bool)
    ensures
        r == ends2(s@, c),
{
    let n = s.as_str().unicode_len();
    if n < 2 {
        return false;
    }
    let c1 = s.as_str().get_char(n - 2);
    let c2 = s.as_str().get_char(n - 1);
    c1 == ';' && c2 == c
}

/// Resolve a number under a key.
fn resolve_num(k: &String, n: &JsonNumber) -> (r: Result<(String, TagType), TagResolvingError>)
    ensures
        r is Ok <==> res_num(k@, *n) is Some,
        r is Ok ==> (r.unwrap().0@, tag_view(r.unwrap().1)) == res_num(k@, *n).unwrap(),
{
    let len = k.as_str().unicode_len();
    let idx = find_semi(k.as_str());
    if idx == len {
        if n.is_float {
            match n.f64_bits {
                Some(b) => Ok((k.clone(), TagType::Double(b))),
                None => Err(TagResolvingError::UnsupportedValue),
            }
        } else {
            match n.int_val {
                Some(v) => {
                    if -0x80000000 <= v && v < 0x80000000 {
                        Ok((k.clone(), TagType::Int(v as i32)))
                    } else {
                        Err(TagResolvingError::UnsupportedValue)
                    }
                },
                None => Err(TagResolvingError::UnsupportedValue),
            }
        }
    } else {
        if str_ends2(k, 'B') {
            let nm = k.as_str().substring_char(0, len - 2).to_owned();
            match n.int_val {
                Some(v) => {
                    if -0x80 <= v && v < 0x80 {
                        Ok((nm, TagType::Byte(v as i8)))
                    } else {
                        Err(TagResolvingError::UnsupportedValue)
                    }
                },
                None => Err(TagResolvingError::UnsupportedValue),
            }
        } else if str_ends2(k, 'S') {
            let nm = k.as_str().substring_char(0, len - 2).to_owned();
            match n.int_val {
                Some(v) => {
                    if -0x8000 <= v && v < 0x8000 {
                        Ok((nm, TagType::Short(v as i16)))
                    } else {
                        Err(TagResolvingError::UnsupportedValue)
                    }
                },
                None => Err(TagResolvingError::UnsupportedValue),
            }
        } else if str_ends2(k, 'L') {
            let nm = k.as_str().substring_char(0, len - 2).to_owned();
            match n.int_val {
                Some(v) => Ok((nm, TagType::Long(v))),
                None => Err(TagResolvingError::UnsupportedValue),
            }
        } else if str_ends2(k, 'F') {
            let nm = k.as_str().substring_char(0, len - 2).to_owned();
            match n.f32_bits {
                Some(b) => Ok((nm, TagType::Float(b))),
                None => Err(TagResolvingError::UnsupportedValue),
            }
        } else {
            Err(TagResolvingError::UnsupportedValue)
        }
    }
}

/// Resolve byte-array elements.
#[verifier::loop_isolation(false)]
fn resolve_bytes(elems: &Vec<JsonValue>) -> (r: Result<Vec<i8>, TagResolvingError>)
    ensures
        r is Ok <==> res_bytes(jelems_view(elems@)) is Some,
        r is Ok ==> r.unwrap()@ == res_bytes(jelems_view(elems@)).unwrap(),
{
    let ghost jes = jelems_view(elems@);
    let mut out: Vec<i8> = Vec::new();
    let mut i: usize = 0;
    proof {
        assert(jes.skip(0) =~= jes);
    }
    while i < elems.len()
        invariant
            i <= elems@.len(),
            match res_bytes(jes.skip(i as int)) {
                Some(rest) => res_bytes(jes) == Some(out@ + rest),
                None => res_bytes(jes) is None,
            },
        decreases elems@.len() - i,
    {
        proof {
            assert(jes.skip(i as int)[0] == json_view(elems@[i as int]));
            assert(jes.skip(i as int).drop_first() =~= jes.skip(i + 1));
        }
        match &elems[i] {
            JsonValue::Num(n) => {
                match n.int_val {
                    Some(v) => {
                        if -0x80 <= v && v < 0x80 {
                            out.push(v as i8);
                            proof {
                                if res_bytes(jes.skip(i + 1)) is Some {
                                    assert(out@ + res_bytes(jes.skip(i + 1)).unwrap()
                                        =~= out@.drop_last() + res_bytes(
                                        jes.skip(i as int),
                                    ).unwrap());
                                }
                            }
                        } else {
                            return Err(TagResolvingError::UnsupportedValue);
                        }
                    },
                    None => {
                        return Err(TagResolvingError::UnsupportedValue);
                    },
                }
            },
            _ => {
                return Err(TagResolvingError::UnsupportedValue);
            },
        }
        i = i + 1;
    }
    proof {
        assert(jes.skip(jes.len() as int) =~= Seq::<JsonV>::empty());
        assert(out@ + Seq::<i8>::empty() =~= out@);
    }
    Ok(out)
}

/// Resolve int-array elements.
#[verifier::loop_isolation(false)]
fn resolve_ints(elems: &Vec<JsonValue>) -> (r: Result<Vec<i32>, TagResolvingError>)
    ensures
        r is Ok <==> res_ints(jelems_view(elems@)) is Some,
        r is Ok ==> r.unwrap()@ == res_ints(jelems_view(elems@)).unwrap(),
{
    let ghost jes = jelems_view(elems@);
    let mut out: Vec<i32> = Vec::new();
    let mut i: usize = 0;
    proof {
        assert(jes.skip(0) =~= jes);
    }
    while i < elems.len()
        invariant
            i <= elems@.len(),
            match res_ints(jes.skip(i as int)) {
                Some(rest) => res_ints(jes) == Some(out@ + rest),
                None => res_ints(jes) is None,
            },
        decreases elems@.len() - i,
    {
        proof {
            assert(jes.skip(i as int)[0] == json_view(elems@[i as int]));
            assert(jes.skip(i as int).drop_first() =~= jes.skip(i + 1));
        }
        match &elems[i] {
            JsonValue::Num(n) => {
                match n.int_val {
                    Some(v) => {
                        if -0x80000000 <= v && v < 0x80000000 {
                            out.push(v as i32);
                            proof {
                                if res_ints(jes.skip(i + 1)) is Some {
                                    assert(out@ + res_ints(jes.skip(i + 1)).unwrap()
                                        =~= out@.drop_last() + res_ints(
                                        jes.skip(i as int),
                                    ).unwrap());
                                }
                            }
                        } else {
                            return Err(TagResolvingError::UnsupportedValue);
                        }
                    },
                    None => {
                        return Err(TagResolvingError::UnsupportedValue);
                    },
                }
            },
            _ => {
                return Err(TagResolvingError::UnsupportedValue);
            },
        }
        i = i + 1;
    }
    proof {
        assert(jes.skip(jes.len() as int) =~= Seq::<JsonV>::empty());
        assert(out@ + Seq::<i32>::empty() =~= out@);
    }
    Ok(out)
}

/// Resolve long-array elements.
#[verifier::loop_isolation(false)]
fn resolve_longs(elems: &Vec<JsonValue>) -> (r: Result<Vec<i64>, TagResolvingError>)
    ensures
        r is Ok <==> res_longs(jelems_view(elems@)) is Some,
        r is Ok ==> r.unwrap()@ == res_longs(jelems_view(elems@)).unwrap(),
{
    let ghost jes = jelems_view(elems@);
    let mut out: Vec<i64> = Vec::new();
    let mut i: usize = 0;
    proof {
        assert(jes.skip(0) =~= jes);
    }
    while i < elems.len()
        invariant
            i <= elems@.len(),
            match res_longs(jes.skip(i as int)) {
                Some(rest) => res_longs(jes) == Some(out@ + rest),
                None => res_longs(jes) is None,
            },
        decreases elems@.len() - i,
    {
        proof {
            assert(jes.skip(i as int)[0] == json_view(elems@[i as int]));
            assert(jes.skip(i as int).drop_first() =~= jes.skip(i + 1));
        }
        match &elems[i] {
            JsonValue::Num(n) => {
                match n.int_val {
                    Some(v) => {
                        out.push(v);
                        proof {
                            if res_longs(jes.skip(i + 1)) is Some {
                                assert(out@ + res_longs(jes.skip(i + 1)).unwrap()
                                    =~= out@.drop_last() + res_longs(jes.skip(i as int)).unwrap());
                            }
                        }
                    },
                    None => {
                        return Err(TagResolvingError::UnsupportedValue);
                    },
                }
            },
            _ => {
                return Err(TagResolvingError::UnsupportedValue);
            },
        }
        i = i + 1;
    }
    proof {
        assert(jes.skip(jes.len() as int) =~= Seq::<JsonV>::empty());
        assert(out@ + Seq::<i64>::empty() =~= out@);
    }
    Ok(out)
}

/// The position of the first child with the given name, or the count when
/// none has it.
fn find_first_key(v: &Vec<(String, TagType)>, nm: &String) -> (r: usize)
    ensures
        r == first_key(entries_view(v@), nm@),
        r <= v@.len(),
{
    let ghost es = entries_view(v@);
    let mut i: usize = 0;
    proof {
        assert(es.skip(0) =~= es);
    }
    while i < v.len()
        invariant
            i <= v@.len(),
            es == entries_view(v@),
            first_key(es, nm@) == i + first_key(es.skip(i as int), nm@),
        decreases v@.len() - i,
    {
        proof {
            assert(es.skip(i as int)[0] == es[i as int]);
            assert(es.skip(i as int).drop_first() =~= es.skip(i + 1));
        }
        let hit = v[i].0.eq(nm);
        if hit {
            return i;
        }
        i = i + 1;
    }
    proof {
        assert(es.skip(v@.len() as int) =~= Seq::<(Seq<char>, TagV)>::empty());
    }
    v.len()
}

/// Insert a resolved child: a repeated name replaces the earlier child and
/// moves to the end.
pub(crate) fn upsert_entry(out: &mut Vec<(String, TagType)>, nm: String, t: TagType)
    ensures
        entries_view(final(out)@) == upsert(entries_view(old(out)@), nm@, tag_view(t)),
{
    let ghost es0 = entries_view(out@);
    let idx = find_first_key(out, &nm);
    if idx < out.len() {
        out.remove(idx);
        proof {
            assert(entries_view(out@) =~= es0.remove(idx as int));
        }
    }
    let ghost es1 = entries_view(out@);
    out.push((nm, t));
    proof {
        assert(entries_view(out@) =~= es1.push((nm@, tag_view(t))));
    }
}

/// Resolve every element of a list against its declared element type.
#[verifier::loop_isolation(false)]
#[verifier::rlimit(100)]
fn resolve_elems(etb: u8, rem: &str, elems: &Vec<JsonValue>) -> (r: Result<
    Vec<TagType>,
    TagResolvingError,
>)
    ensures
        r is Ok <==> res_elems(etb, rem@, jelems_view(elems@)) is Some,
        r is Ok ==> elems_view(r.unwrap()@) == res_elems(etb, rem@, jelems_view(elems@)).unwrap(),
    decreases *elems, 0int,
{
    let ghost jes = jelems_view(elems@);
    let mut out: Vec<TagType> = Vec::new();
    let mut i: usize = 0;
    proof {
        assert(jes.skip(0) =~= jes);
        assert(elems_view(out@) =~= Seq::<TagV>::empty());
    }
    while i < elems.len()
        invariant
            i <= elems@.len(),
            out@.len() == i,
            match res_elems(etb, rem@, jes.skip(i as int)) {
                Some(rest) => res_elems(etb, rem@, jes) == Some(elems_view(out@) + rest),
                None => res_elems(etb, rem@, jes) is None,
            },
        decreases elems@.len() - i,
    {
        proof {
            assert(jes.skip(i as int)[0] == json_view(elems@[i as int]));
            assert(jes.skip(i as int).drop_first() =~= jes.skip(i + 1));
        }
        let el = match resolve_list_elem(etb, rem, &elems[i]) {
            Ok(v) => v,
            Err(e) => {
                return Err(e);
            },
        };
        out.push(el);
        proof {
            if res_elems(etb, rem@, jes.skip(i + 1)) is Some {
                assert(elems_view(out@) + res_elems(etb, rem@, jes.skip(i + 1)).unwrap()
                    =~= elems_view(out@.drop_last()) + res_elems(
                    etb,
                    rem@,
                    jes.skip(i as int),
                ).unwrap());
            }
        }
        i = i + 1;
    }
    proof {
        assert(jes.skip(jes.len() as int) =~= Seq::<JsonV>::empty());
        assert(elems_view(out@) + Seq::<TagV>::empty() =~= elems_view(out@));
    }
    Ok(out)
}

/// Resolve one list element.
#[verifier::rlimit(100)]
fn resolve_list_elem(etb: u8, rem: &str, e: &JsonValue) -> (r: Result<TagType, TagResolvingError>)
    ensures
        r is Ok <==> res_list_elem(etb, rem@, json_view(*e)) is Some,
        r is Ok ==> tag_view(r.unwrap()) == res_list_elem(etb, rem@, json_view(*e)).unwrap(),
    decreases *e, 2int,
{
    if etb == 0x01 {
        match e {
            JsonValue::Num(n) => match n.int_val {
                Some(v) => {
                    if -0x80 <= v && v < 0x80 {
                        Ok(TagType::Byte(v as i8))
                    } else {
                        Err(TagResolvingError::UnsupportedValue)
                    }
                },
                None => Err(TagResolvingError::UnsupportedValue),
            },
            _ => Err(TagResolvingError::UnsupportedValue),
        }
    } else if etb == 0x02 {
        match e {
            JsonValue::Num(n) => match n.int_val {
                Some(v) => {
                    if -0x8000 <= v && v < 0x8000 {
                        Ok(TagType::Short(v as i16))
                    } else {
                        Err(TagResolvingError::UnsupportedValue)
                    }
                },
                None => Err(TagResolvingError::UnsupportedValue),
            },
            _ => Err(TagResolvingError::UnsupportedValue),
        }
    } else if etb == 0x03 {
        match e {
            JsonValue::Num(n) => match n.int_val {
                Some(v) => {
                    if -0x80000000 <= v && v < 0x80000000 {
                        Ok(TagType::Int(v as i32))
                    } else {
                        Err(TagResolvingError::UnsupportedValue)
                    }
                },
                None => Err(TagResolvingError::UnsupportedValue),
            },
            _ => Err(TagResolvingError::UnsupportedValue),
        }
    } else if etb == 0x04 {
        match e {
            JsonValue::Num(n) => match n.int_val {
                Some(v) => Ok(TagType::Long(v)),
                None => Err(TagResolvingError::UnsupportedValue),
            },
            _ => Err(TagResolvingError::UnsupportedValue),
        }
    } else if etb == 0x05 {
        match e {
            JsonValue::Num(n) => match n.f32_bits {
                Some(b) => Ok(TagType::Float(b)),
                None => Err(TagResolvingError::UnsupportedValue),
            },
            _ => Err(TagResolvingError::UnsupportedValue),
        }
    } else if etb == 0x06 {
        match e {
            JsonValue::Num(n) => match n.f64_bits {
                Some(b) => Ok(TagType::Double(b)),
                None => Err(TagResolvingError::UnsupportedValue),
            },
            _ => Err(TagResolvingError::UnsupportedValue),
        }
    } else if etb == 0x07 {
        match e {
            JsonValue::Array(elems) => {
                proof {
                    assert(*e == JsonValue::Array(*elems));
                    crate::jsonval::lemma_json_view_array(*elems);
                }
                match resolve_bytes(elems) {
                    Ok(v) => Ok(TagType::ByteArray(v)),
                    Err(e) => Err(e),
                }
            },
            _ => Err(TagResolvingError::UnsupportedValue),
        }
    } else if etb == 0x08 {
        match e {
            JsonValue::Str(s) => Ok(TagType::Str(s.clone())),
            _ => Err(TagResolvingError::UnsupportedValue),
        }
    } else if etb == 0x09 {
        match e {
            JsonValue::Array(elems) => {
                proof {
                    assert(*e == JsonValue::Array(*elems));
                    crate::jsonval::lemma_json_view_array(*elems);
                }
                resolve_list(rem, elems)
            },
            _ => Err(TagResolvingError::UnsupportedValue),
        }
    } else if etb == 0x0a {
        match e {
            JsonValue::Object(members) => {
                proof {
                    assert(*e == JsonValue::Object(*members));
                    crate::jsonval::lemma_json_view_object(*members);
                }
                match resolve_members(members) {
                    Ok(v) => {
                        proof {
                            crate::tag::lemma_tag_view_compound(v);
                        }
                        Ok(TagType::Compound(v))
                    },
                    Err(e) => Err(e),
                }
            },
            _ => Err(TagResolvingError::UnsupportedValue),
        }
    } else if etb == 0x0b {
        match e {
            JsonValue::Array(elems) => {
                proof {
                    assert(*e == JsonValue::Array(*elems));
                    crate::jsonval::lemma_json_view_array(*elems);
                }
                match resolve_ints(elems) {
                    Ok(v) => Ok(TagType::IntArray(v)),
                    Err(e) => Err(e),
                }
            },
            _ => Err(TagResolvingError::UnsupportedValue),
        }
    } else if etb == 0x0c {
        match e {
            JsonValue::Array(elems) => {
                proof {
                    assert(*e == JsonValue::Array(*elems));
                    crate::jsonval::lemma_json_view_array(*elems);
                }
                match resolve_longs(elems) {
                    Ok(v) => Ok(TagType::LongArray(v)),
                    Err(e) => Err(e),
                }
            },
            _ => Err(TagResolvingError::UnsupportedValue),
        }
    } else {
        Err(TagResolvingError::UnsupportedValue)
    }
}

/// Resolve a list from its suffix chain and its elements.
#[verifier::rlimit(100)]
fn resolve_list(vt: &str, elems: &Vec<JsonValue>) -> (r: Result<TagType, TagResolvingError>)
    ensures
        r is Ok <==> res_list(vt@, jelems_view(elems@)) is Some,
        r is Ok ==> tag_view(r.unwrap()) == res_list(vt@, jelems_view(elems@)).unwrap(),
    decreases *elems, 1int,
{
    let len = vt.unicode_len();
    let idx = find_semi(vt);
    let seg = vt.substring_char(0, idx);
    proof {
        assert(seg@ =~= vt@.take(first_semi(vt@)));
        reveal_strlit("");
    }
    let rem: &str = if idx < len {
        vt.substring_char(idx + 1, len)
    } else {
        ""
    };
    proof {
        if idx < len {
            assert(rem@ =~= vt@.subrange(first_semi(vt@) + 1, vt@.len() as int));
        } else {
            assert(rem@ =~= Seq::<char>::empty());
        }
    }
    let etb = match TagType::str_to_u8(seg) {
        Ok(b) => b,
        Err(_) => {
            return Err(TagResolvingError::UnsupportedValue);
        },
    };
    if etb == 0x00 {
        if elems.len() == 0 {
            let empty: Vec<TagType> = Vec::new();
            proof {
                crate::tag::lemma_tag_view_list(empty);
                assert(elems_view(empty@) =~= Seq::<TagV>::empty());
            }
            Ok(TagType::List(empty))
        } else {
            Err(TagResolvingError::UnsupportedValue)
        }
    } else {
        let es = match resolve_elems(etb, rem, elems) {
            Ok(v) => v,
            Err(e) => {
                return Err(e);
            },
        };
        proof {
            crate::tag::lemma_tag_view_list(es);
        }
        Ok(TagType::List(es))
    }
}

/// Resolve one key/value pair of an object into a named tag.
#[verifier::rlimit(100)]
fn resolve_value(k: &String, v: &JsonValue) -> (r: Result<(String, TagType), TagResolvingError>)
    ensures
        r is Ok <==> res_value(k@, json_view(*v)) is Some,
        r is Ok ==> (r.unwrap().0@, tag_view(r.unwrap().1)) == res_value(k@, json_view(*v)).unwrap(),
    decreases *v, 3int,
{
    match v {
        JsonValue::Null => Err(TagResolvingError::UnsupportedValue),
        JsonValue::Bool(b) => {
            if *b {
                Ok((k.clone(), TagType::Byte(1)))
            } else {
                Ok((k.clone(), TagType::Byte(0)))
            }
        },
        JsonValue::Num(n) => resolve_num(k, n),
        JsonValue::Str(s) => Ok((k.clone(), TagType::Str(s.clone()))),
        JsonValue::Array(elems) => {
            proof {
                assert(*v == JsonValue::Array(*elems));
                crate::jsonval::lemma_json_view_array(*elems);
            }
            let len = k.as_str().unicode_len();
            let idx = find_semi(k.as_str());
            if idx == len {
                return Err(TagResolvingError::UnsupportedValue);
            }
            let nm = k.as_str().substring_char(0, idx).to_owned();
            let vt = k.as_str().substring_char(idx + 1, len);
            proof {
                assert(nm@ =~= k@.take(first_semi(k@)));
                assert(vt@ =~= k@.subrange(first_semi(k@) + 1, k@.len() as int));
            }
            let vtlen = vt.unicode_len();
            if vtlen > 0 && vt.get_char(0) == 'B' {
                match resolve_bytes(elems) {
                    Ok(v) => Ok((nm, TagType::ByteArray(v))),
                    Err(e) => Err(e),
                }
            } else if vtlen > 0 && vt.get_char(0) == 'I' {
                match resolve_ints(elems) {
                    Ok(v) => Ok((nm, TagType::IntArray(v))),
                    Err(e) => Err(e),
                }
            } else if vtlen > 0 && vt.get_char(0) == 'L' {
                match resolve_longs(elems) {
                    Ok(v) => Ok((nm, TagType::LongArray(v))),
                    Err(e) => Err(e),
                }
            } else if vtlen >= 4 && vt.get_char(0) == 'T' && vt.get_char(1) == 'A' && vt.get_char(2)
                == 'G' && vt.get_char(3) == '_' {
                proof {
                    assert(vt@.take(4) =~= seq!['T', 'A', 'G', '_']);
                }
                match resolve_list(vt, elems) {
                    Ok(t) => Ok((nm, t)),
                    Err(e) => Err(e),
                }
            } else {
                Err(TagResolvingError::UnsupportedValue)
            }
        },
        JsonValue::Object(members) => {
            proof {
                assert(*v == JsonValue::Object(*members));
                crate::jsonval::lemma_json_view_object(*members);
            }
            match resolve_members(members) {
                Ok(es) => {
                    proof {
                        crate::tag::lemma_tag_view_compound(es);
                    }
                    Ok((k.clone(), TagType::Compound(es)))
                },
                Err(e) => Err(e),
            }
        },
    }
}

/// Resolve an object's members, in order, into a compound's children.
#[verifier::loop_isolation(false)]
#[verifier::rlimit(100)]
fn resolve_members(members: &Vec<(String, JsonValue)>) -> (r: Result<
    Vec<(String, TagType)>,
    TagResolvingError,
>)
    ensures
        r is Ok <==> res_members(jmembers_view(members@)) is Some,
        r is Ok ==> entries_view(r.unwrap()@) == res_members(jmembers_view(members@)).unwrap(),
    decreases *members, 5int,
{
    let ghost jms = jmembers_view(members@);
    let mut out: Vec<(String, TagType)> = Vec::new();
    let mut i: usize = 0;
    proof {
        assert(jms.skip(0) =~= jms);
        assert(entries_view(out@) =~= Seq::<(Seq<char>, TagV)>::empty());
    }
    while i < members.len()
        invariant
            i <= members@.len(),
            res_members(jms) == res_members_acc(jms.skip(i as int), entries_view(out@)),
        decreases members@.len() - i,
    {
        proof {
            assert(jms.skip(i as int)[0] == (members@[i as int].0@, json_view(
                members@[i as int].1,
            )));
            assert(jms.skip(i as int).drop_first() =~= jms.skip(i + 1));
        }
        let member = &members[i];
        let (nm, t) = match resolve_value(&member.0, &member.1) {
            Ok(v) => v,
            Err(e) => {
                return Err(e);
            },
        };
        upsert_entry(&mut out, nm, t);
        i = i + 1;
    }
    proof {
        assert(jms.skip(jms.len() as int) =~= Seq::<(Seq<char>, JsonV)>::empty());
    }
    Ok(out)
}

/// Resolve a JSON object's members into the children of a root compound.
pub fn resolve_compound(json: &Vec<(String, JsonValue)>) -> (r: Result<
    Vec<(String, TagType)>,
    TagResolvingError,
>)
    ensures
        r is Ok <==> res_members(jmembers_view(json@)) is Some,
        r is Ok ==> entries_view(r.unwrap()@) == res_members(jmembers_view(json@)).unwrap(),
{
    resolve_members(json)
}

/// Resolve a JSON document into the children of a root compound. The
/// top-level value must be an object.
pub fn resolve_tag_types(json: &JsonValue) -> (r: Result<
    Vec<(String, TagType)>,
    TagResolvingError,
>)
    ensures
        r is Ok <==> (json_view(*json) matches JsonV::Object(ms) && res_members(ms) is Some),
        r is Ok ==> entries_view(r.unwrap()@) == res_members(
            json_view(*json)->Object_0,
        ).unwrap(),
{
    match json {
        JsonValue::Object(members) => {
            proof {
                assert(*json == JsonValue::Object(*members));
                crate::jsonval::lemma_json_view_object(*members);
            }
            resolve_members(members)
        },
        _ => Err(TagResolvingError::UnsupportedValue),
    }
}

} // verus!
