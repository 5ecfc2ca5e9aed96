//! Round-trip laws of the JSON boundary.
//!
//! The binary boundary's round trip is stated on the codec itself: `to_nbt`
//! ensures it writes exactly `enc_document`, and `nbt_to_json` ensures that
//! decoding any valid tree's encoding returns that tree. This module states
//! the JSON boundary's counterpart: resolving what the projector emitted
//! gives the original children back, for every tree the suffix grammar can
//! invert (see `jtrip`). It also states that the resolver never builds a
//! mixed-variant list.

use crate::format::{elem_type_byte, keys_unique};
use crate::jsonval::{spec_int_number, JsonV};
use crate::project::{proj_entries, proj_long, proj_suffix, proj_value};
use crate::resolve::{
    first_semi, res_bytes, res_elems, res_ints, res_list, res_list_elem, res_longs, res_members,
    res_members_acc, res_value,
};
use crate::tag::{
    first_key, spec_name_to_byte, spec_type_byte, spec_type_name, upsert, TagV,
    JS_MAX_SAFE_INTEGER,
};
use vstd::prelude::*;

verus! {

broadcast use vstd::seq::group_seq_axioms;

/// A name the suffix grammar can split back off: it holds no semicolon.
pub open spec fn name_ok(nm: Seq<char>) -> bool {
    forall|j: int| 0 <= j < nm.len() ==> nm[j] != ';'
}

/// A tree whose projection carries full information, so that resolving it
/// recovers the tree: no terminator stands for a value, longs stay within
/// the safe-integer range, compound names are semicolon-free and unique, and
/// a list is homogeneous — nested lists all carrying the same suffix chain.
pub open spec fn jtrip(t: TagV) -> bool
    decreases t,
{
    match t {
        TagV::End => false,
        TagV::Byte(_) => true,
        TagV::Short(_) => true,
        TagV::Int(_) => true,
        TagV::Long(v) => -JS_MAX_SAFE_INTEGER <= v <= JS_MAX_SAFE_INTEGER,
        TagV::Float(_) => true,
        TagV::Double(_) => true,
        TagV::Str(_) => true,
        TagV::ByteArray(_) => true,
        TagV::IntArray(_) => true,
        TagV::LongArray(v) => forall|i: int|
            0 <= i < v.len() ==> -JS_MAX_SAFE_INTEGER <= #[trigger] v[i] <= JS_MAX_SAFE_INTEGER,
        TagV::List(es) => es.len() == 0 || jtrip_elems(
            es,
            spec_type_byte(es[0]),
            proj_suffix(es[0]),
        ),
        TagV::Compound(entries) => keys_unique(entries) && jtrip_entries(entries),
    }
}

/// Every element of a list can be inverted, carries the list's element type,
/// and projects the same suffix chain.
pub open spec fn jtrip_elems(es: Seq<TagV>, etb: u8, sfx: Seq<char>) -> bool
    decreases es,
{
    if es.len() == 0 {
        true
    } else {
        jtrip(es[0]) && spec_type_byte(es[0]) == etb && proj_suffix(es[0]) == sfx && jtrip_elems(
            es.drop_first(),
            etb,
            sfx,
        )
    }
}

/// Every child of a compound can be inverted and carries a semicolon-free
/// name.
pub open spec fn jtrip_entries(entries: Seq<(Seq<char>, TagV)>) -> bool
    decreases entries,
{
    if entries.len() == 0 {
        true
    } else {
        name_ok(entries[0].0) && jtrip(entries[0].1) && jtrip_entries(entries.drop_first())
    }
}

/// Each child of an invertible compound is itself invertible and cleanly
/// named.
proof fn lemma_jtrip_entries_index(entries: Seq<(Seq<char>, TagV)>, i: int)
    requires
        jtrip_entries(entries),
        0 <= i < entries.len(),
    ensures
        name_ok(entries[i].0),
        jtrip(entries[i].1),
    decreases i,
{
    if i > 0 {
        lemma_jtrip_entries_index(entries.drop_first(), i - 1);
    }
}

/// The projection of a byte-array resolves back to its elements.
proof fn lemma_res_bytes_proj(v: Seq<i8>)
    ensures
        res_bytes(Seq::new(v.len(), |i: int| JsonV::Num(spec_int_number(v[i] as i64)))) == Some(
            v,
        ),
    decreases v.len(),
{
    let js = Seq::new(v.len(), |i: int| JsonV::Num(spec_int_number(v[i] as i64)));
    if v.len() > 0 {
        let w = v.drop_first();
        assert(js.drop_first() =~= Seq::new(
            w.len(),
            |i: int| JsonV::Num(spec_int_number(w[i] as i64)),
        ));
        lemma_res_bytes_proj(w);
        assert(seq![v[0]] + w =~= v);
    }
}

/// The projection of an int-array resolves back to its elements.
proof fn lemma_res_ints_proj(v: Seq<i32>)
    ensures
        res_ints(Seq::new(v.len(), |i: int| JsonV::Num(spec_int_number(v[i] as i64)))) == Some(v),
    decreases v.len(),
{
    let js = Seq::new(v.len(), |i: int| JsonV::Num(spec_int_number(v[i] as i64)));
    if v.len() > 0 {
        let w = v.drop_first();
        assert(js.drop_first() =~= Seq::new(
            w.len(),
            |i: int| JsonV::Num(spec_int_number(w[i] as i64)),
        ));
        lemma_res_ints_proj(w);
        assert(seq![v[0]] + w =~= v);
    }
}

/// The projection of a long-array whose elements stay within the safe range
/// resolves back to its elements.
proof fn lemma_res_longs_proj(v: Seq<i64>)
    requires
        forall|i: int|
            0 <= i < v.len() ==> -JS_MAX_SAFE_INTEGER <= #[trigger] v[i] <= JS_MAX_SAFE_INTEGER,
    ensures
        res_longs(Seq::new(v.len(), |i: int| proj_long(v[i]))) == Some(v),
    decreases v.len(),
{
    let js = Seq::new(v.len(), |i: int| proj_long(v[i]));
    if v.len() > 0 {
        let w = v.drop_first();
        assert(forall|i: int| 0 <= i < w.len() ==> #[trigger] w[i] == v[i + 1]);
        assert(js.drop_first() =~= Seq::new(w.len(), |i: int| proj_long(w[i])));
        lemma_res_longs_proj(w);
        assert(seq![v[0]] + w =~= v);
    }
}

/// A semicolon-free name has no semicolon to find.
proof fn lemma_first_semi_free(nm: Seq<char>)
    requires
        name_ok(nm),
    ensures
        first_semi(nm) == nm.len(),
    decreases nm.len(),
{
    if nm.len() > 0 {
        assert(forall|j: int| 0 <= j < nm.drop_first().len() ==> nm.drop_first()[j] == nm[j + 1]);
        lemma_first_semi_free(nm.drop_first());
    }
}

/// The first semicolon of a name joined with a suffix is where the suffix
/// begins.
proof fn lemma_first_semi_concat(nm: Seq<char>, sfx: Seq<char>)
    requires
        name_ok(nm),
        sfx.len() > 0,
        sfx[0] == ';',
    ensures
        first_semi(nm + sfx) == nm.len(),
    decreases nm.len(),
{
    if nm.len() == 0 {
        assert(nm + sfx =~= sfx);
    } else {
        assert((nm + sfx).drop_first() =~= nm.drop_first() + sfx);
        assert(forall|j: int| 0 <= j < nm.drop_first().len() ==> nm.drop_first()[j] == nm[j + 1]);
        lemma_first_semi_concat(nm.drop_first(), sfx);
    }
}

/// The display name of each tag type is semicolon-free, opens with the four
/// marker characters, and maps back to its type byte.
#[verifier::rlimit(100)]
proof fn lemma_type_name_facts(b: u8)
    requires
        b <= 0x0c,
    ensures
        name_ok(spec_type_name(b)),
        spec_type_name(b).len() >= 4,
        spec_type_name(b)[0] == 'T',
        spec_type_name(b).take(4) == seq!['T', 'A', 'G', '_'],
        spec_name_to_byte(spec_type_name(b)) == Some(b),
{
    reveal_strlit("TAG_End");
    reveal_strlit("TAG_Byte");
    reveal_strlit("TAG_Short");
    reveal_strlit("TAG_Int");
    reveal_strlit("TAG_Long");
    reveal_strlit("TAG_Float");
    reveal_strlit("TAG_Double");
    reveal_strlit("TAG_Byte_Array");
    reveal_strlit("TAG_String");
    reveal_strlit("TAG_List");
    reveal_strlit("TAG_Compound");
    reveal_strlit("TAG_Int_Array");
    reveal_strlit("TAG_Long_Array");
    assert(spec_type_name(b).take(4) =~= seq!['T', 'A', 'G', '_']);
    assert("TAG_End"@[4] != "TAG_Int"@[4]);
    assert("TAG_Byte"@[4] != "TAG_Long"@[4]);
    assert("TAG_Byte"@[4] != "TAG_List"@[4]);
    assert("TAG_Long"@[5] != "TAG_List"@[5]);
    assert("TAG_Short"@[4] != "TAG_Float"@[4]);
    assert("TAG_Double"@[4] != "TAG_String"@[4]);
    assert("TAG_Byte_Array"@[4] != "TAG_Long_Array"@[4]);
    if b == 0x00 {
        assert(spec_name_to_byte(spec_type_name(b)) == Some(b));
    }
    if b == 0x01 {
        assert(spec_name_to_byte(spec_type_name(b)) == Some(b));
    }
    if b == 0x02 {
        assert(spec_name_to_byte(spec_type_name(b)) == Some(b));
    }
    if b == 0x03 {
        assert(spec_name_to_byte(spec_type_name(b)) == Some(b));
    }
    if b == 0x04 {
        assert(spec_name_to_byte(spec_type_name(b)) == Some(b));
    }
    if b == 0x05 {
        assert(spec_name_to_byte(spec_type_name(b)) == Some(b));
    }
    if b == 0x06 {
        assert(spec_name_to_byte(spec_type_name(b)) == Some(b));
    }
    if b == 0x07 {
        assert(spec_name_to_byte(spec_type_name(b)) == Some(b));
    }
    if b == 0x08 {
        assert(spec_name_to_byte(spec_type_name(b)) == Some(b));
    }
    if b == 0x09 {
        assert(spec_name_to_byte(spec_type_name(b)) == Some(b));
    }
    if b == 0x0a {
        assert(spec_name_to_byte(spec_type_name(b)) == Some(b));
    }
    if b == 0x0b {
        assert(spec_name_to_byte(spec_type_name(b)) == Some(b));
    }
    if b == 0x0c {
        assert(spec_name_to_byte(spec_type_name(b)) == Some(b));
    }
}

/// A name that no child carries is not found.
proof fn lemma_first_key_absent(es: Seq<(Seq<char>, TagV)>, nm: Seq<char>)
    requires
        forall|j: int| 0 <= j < es.len() ==> (#[trigger] es[j]).0 != nm,
    ensures
        first_key(es, nm) == es.len(),
    decreases es.len(),
{
    if es.len() > 0 {
        assert(forall|j: int|
            0 <= j < es.drop_first().len() ==> (#[trigger] es.drop_first()[j]) == es[j + 1]);
        lemma_first_key_absent(es.drop_first(), nm);
    }
}

/// The projections of a list's elements, in order.
pub open spec fn json_elems_of(es: Seq<TagV>) -> Seq<JsonV> {
    Seq::new(es.len(), |i: int| proj_value(es[i]))
}

/// Resolving the projection of an invertible child under a clean name
/// recovers the child exactly.
#[verifier::rlimit(100)]
proof fn lemma_res_value_proj(nm: Seq<char>, t: TagV)
    requires
        jtrip(t),
        name_ok(nm),
    ensures
        res_value(nm + proj_suffix(t), proj_value(t)) == Some((nm, t)),
    decreases t, 3int, 0int,
{
    let k = nm + proj_suffix(t);
    match t {
        TagV::Str(_) => {
            assert(k =~= nm);
        },
        TagV::Int(_) => {
            assert(k =~= nm);
            lemma_first_semi_free(nm);
        },
        TagV::Double(_) => {
            assert(k =~= nm);
            lemma_first_semi_free(nm);
        },
        TagV::ByteArray(v) => {
            lemma_first_semi_concat(nm, proj_suffix(t));
            assert(k.take(nm.len() as int) =~= nm);
            assert(k.subrange(nm.len() + 1 as int, k.len() as int) =~= seq!['B']);
            lemma_res_bytes_proj(v);
        },
        TagV::IntArray(v) => {
            lemma_first_semi_concat(nm, proj_suffix(t));
            assert(k.take(nm.len() as int) =~= nm);
            assert(k.subrange(nm.len() + 1 as int, k.len() as int) =~= seq!['I']);
            lemma_res_ints_proj(v);
        },
        TagV::LongArray(v) => {
            lemma_first_semi_concat(nm, proj_suffix(t));
            assert(k.take(nm.len() as int) =~= nm);
            assert(k.subrange(nm.len() + 1 as int, k.len() as int) =~= seq!['L']);
            lemma_res_longs_proj(v);
        },
        TagV::Compound(entries) => {
            assert(k =~= nm);
            lemma_res_members_proj(entries, 0);
            assert(entries.take(0) =~= Seq::<(Seq<char>, TagV)>::empty());
            assert(proj_entries(entries).skip(0) =~= proj_entries(entries));
        },
        TagV::List(es) => {
            let sfx = proj_suffix(t);
            let etb = elem_type_byte(es);
            lemma_type_name_facts(etb);
            assert(sfx[0] == ';');
            lemma_first_semi_concat(nm, sfx);
            assert(k.take(nm.len() as int) =~= nm);
            let vt = k.subrange(nm.len() + 1 as int, k.len() as int);
            assert(vt =~= sfx.drop_first());
            assert(vt =~= spec_type_name(etb) + (if es.len() > 0 && es[0] is List {
                proj_suffix(es[0])
            } else {
                Seq::<char>::empty()
            }));
            assert(vt[0] == spec_type_name(etb)[0]);
            assert(vt.take(4) =~= spec_type_name(etb).take(4));
            lemma_res_list_proj(t);
            assert(proj_value(t)->Array_0 =~= json_elems_of(es));
        },
        _ => {
            // The two-character numeric suffixes: byte, short, long, float.
            lemma_first_semi_concat(nm, proj_suffix(t));
            assert(k.len() == nm.len() + 2);
            assert(k[k.len() - 2] == ';' && k.subrange(0, k.len() - 2) =~= nm);
        },
    }
}

/// Resolving the suffix chain and projected elements of an invertible list
/// recovers the list exactly.
#[verifier::rlimit(100)]
proof fn lemma_res_list_proj(t: TagV)
    requires
        t is List,
        jtrip(t),
    ensures
        res_list(proj_suffix(t).drop_first(), json_elems_of(t->List_0)) == Some(t),
    decreases t, 2int, 0int,
{
    let es = t->List_0;
    let etb = elem_type_byte(es);
    let js = json_elems_of(es);
    lemma_type_name_facts(etb);
    let chain = if es.len() > 0 && es[0] is List {
        proj_suffix(es[0])
    } else {
        Seq::<char>::empty()
    };
    let vt = proj_suffix(t).drop_first();
    assert(vt =~= spec_type_name(etb) + chain);
    if es.len() == 0 {
        assert(vt =~= spec_type_name(0x00));
        lemma_first_semi_free(vt);
        assert(vt.take(first_semi(vt)) =~= vt);
        assert(js.len() == 0);
        assert(t->List_0 =~= Seq::<TagV>::empty());
    } else {
        assert(jtrip_elems(es, spec_type_byte(es[0]), proj_suffix(es[0])));
        assert(jtrip(es[0]));
        assert(!(es[0] is End));
        assert(spec_type_byte(es[0]) == etb);
        crate::decode::lemma_type_byte_zero(es[0]);
        assert(etb != 0x00);
        if es[0] is List {
            assert(chain.len() > 0 && chain[0] == ';');
            lemma_first_semi_concat(spec_type_name(etb), chain);
            assert(vt.take(first_semi(vt)) =~= spec_type_name(etb));
            let rem = vt.subrange(first_semi(vt) + 1, vt.len() as int);
            assert(rem =~= chain.drop_first());
            lemma_res_elems_proj(etb, rem, es, proj_suffix(es[0]));
        } else {
            assert(chain =~= Seq::<char>::empty());
            assert(vt =~= spec_type_name(etb));
            lemma_first_semi_free(vt);
            assert(vt.take(first_semi(vt)) =~= vt);
            lemma_res_elems_proj(etb, Seq::empty(), es, proj_suffix(es[0]));
        }
    }
}

/// Resolving the projections of a run of invertible, same-typed elements
/// recovers them in order.
proof fn lemma_res_elems_proj(etb: u8, rem: Seq<char>, es: Seq<TagV>, sfx: Seq<char>)
    requires
        jtrip_elems(es, etb, sfx),
        etb == 0x09 ==> rem == sfx.drop_first(),
    ensures
        res_elems(etb, rem, json_elems_of(es)) == Some(es),
    decreases es, 1int, 0int,
{
    let js = json_elems_of(es);
    if es.len() > 0 {
        let w = es.drop_first();
        lemma_res_elem_proj(etb, rem, es[0]);
        assert(forall|i: int| 0 <= i < w.len() ==> #[trigger] w[i] == es[i + 1]);
        assert(js.drop_first() =~= json_elems_of(w));
        lemma_res_elems_proj(etb, rem, w, sfx);
        assert(seq![es[0]] + w =~= es);
    }
}

/// Resolving the projection of one invertible element at its declared type
/// recovers it.
#[verifier::rlimit(100)]
proof fn lemma_res_elem_proj(etb: u8, rem: Seq<char>, t: TagV)
    requires
        jtrip(t),
        spec_type_byte(t) == etb,
        etb == 0x09 ==> rem == proj_suffix(t).drop_first(),
    ensures
        res_list_elem(etb, rem, proj_value(t)) == Some(t),
    decreases t, 4int, 0int,
{
    match t {
        TagV::ByteArray(v) => {
            lemma_res_bytes_proj(v);
        },
        TagV::IntArray(v) => {
            lemma_res_ints_proj(v);
        },
        TagV::LongArray(v) => {
            lemma_res_longs_proj(v);
        },
        TagV::List(_) => {
            lemma_res_list_proj(t);
            assert(proj_value(t)->Array_0 =~= json_elems_of(t->List_0));
        },
        TagV::Compound(entries) => {
            lemma_res_members_proj(entries, 0);
            assert(entries.take(0) =~= Seq::<(Seq<char>, TagV)>::empty());
            assert(proj_entries(entries).skip(0) =~= proj_entries(entries));
        },
        _ => {},
    }
}

/// The members from position `k` on resolve to the children from `k` on,
/// appended to what is already resolved.
proof fn lemma_res_members_proj(entries: Seq<(Seq<char>, TagV)>, k: int)
    requires
        jtrip_entries(entries),
        keys_unique(entries),
        0 <= k <= entries.len(),
    ensures
        res_members_acc(proj_entries(entries).skip(k), entries.take(k)) == Some(entries),
    decreases entries, 5int, entries.len() - k,
{
    let ms = proj_entries(entries).skip(k);
    if k == entries.len() {
        assert(ms =~= Seq::<(Seq<char>, JsonV)>::empty());
        assert(entries.take(k) =~= entries);
    } else {
        let nm = entries[k].0;
        let t = entries[k].1;
        assert(ms[0] == (nm + proj_suffix(t), proj_value(t)));
        lemma_jtrip_entries_index(entries, k);
        lemma_res_value_proj(nm, t);
        assert(forall|j: int|
            0 <= j < entries.take(k).len() ==> (#[trigger] entries.take(k)[j]).0 != nm);
        lemma_first_key_absent(entries.take(k), nm);
        assert(upsert(entries.take(k), nm, t) =~= entries.take(k + 1));
        assert(ms.drop_first() =~= proj_entries(entries).skip(k + 1));
        lemma_res_members_proj(entries, k + 1);
    }
}

/// Round trip across the JSON boundary: resolving the members that the
/// projector emitted for a compound of invertible children — uniquely and
/// cleanly named, longs within the safe-integer range, lists homogeneous —
/// yields exactly those children, in order.
pub proof fn lemma_project_resolve(entries: Seq<(Seq<char>, TagV)>)
    requires
        jtrip_entries(entries),
        keys_unique(entries),
    ensures
        res_members(proj_entries(entries)) == Some(entries),
{
    assert(proj_entries(entries).skip(0) =~= proj_entries(entries));
    assert(entries.take(0) =~= Seq::<(Seq<char>, TagV)>::empty());
    lemma_res_members_proj(entries, 0);
}

/// One resolved list element carries the declared type byte.
proof fn lemma_res_list_elem_tb(etb: u8, rem: Seq<char>, e: JsonV)
    ensures
        res_list_elem(etb, rem, e) matches Some(t) ==> spec_type_byte(t) == etb,
    decreases e, 3int,
{
    if etb == 0x09 {
        if e is Array && res_list(rem, e->Array_0) is Some {
            lemma_res_list_is_list(rem, e->Array_0);
        }
    }
}

/// Whatever a suffix chain resolves to is a list.
proof fn lemma_res_list_is_list(vt: Seq<char>, elems: Seq<JsonV>)
    ensures
        res_list(vt, elems) matches Some(t) ==> t is List,
    decreases elems, 4int,
{
}

/// The elements a list resolves to all carry the declared type byte.
proof fn lemma_res_elems_tb(etb: u8, rem: Seq<char>, elems: Seq<JsonV>)
    ensures
        res_elems(etb, rem, elems) matches Some(es) ==> forall|i: int|
            0 <= i < es.len() ==> spec_type_byte(#[trigger] es[i]) == etb,
    decreases elems, 5int,
{
    if elems.len() > 0 && res_elems(etb, rem, elems) is Some {
        lemma_res_list_elem_tb(etb, rem, elems[0]);
        lemma_res_elems_tb(etb, rem, elems.drop_first());
        let t0 = res_list_elem(etb, rem, elems[0]).unwrap();
        let rest = res_elems(etb, rem, elems.drop_first()).unwrap();
        assert(forall|i: int|
            0 <= i < (seq![t0] + rest).len() ==> (seq![t0] + rest)[i] == if i == 0 {
                t0
            } else {
                rest[i - 1]
            });
    }
}

/// A list the resolver builds is homogeneous: every element carries the type
/// byte its suffix chain declared, which is the type byte of its first
/// element — a mixed-variant list is never produced, so the encoder never
/// writes a mismatched type byte for it.
pub proof fn lemma_resolved_list_homogeneous(vt: Seq<char>, elems: Seq<JsonV>)
    ensures
        res_list(vt, elems) matches Some(t) ==> t is List && (forall|i: int|
            0 <= i < t->List_0.len() ==> spec_type_byte(#[trigger] t->List_0[i]) == elem_type_byte(
                t->List_0,
            )),
{
    if res_list(vt, elems) is Some {
        let idx = first_semi(vt);
        let seg = vt.take(idx);
        let rem = if idx < vt.len() {
            vt.subrange(idx + 1, vt.len() as int)
        } else {
            Seq::<char>::empty()
        };
        let etb = crate::tag::spec_name_to_byte(seg).unwrap();
        if etb != 0x00 {
            lemma_res_elems_tb(etb, rem, elems);
        }
    }
}

} // verus!
