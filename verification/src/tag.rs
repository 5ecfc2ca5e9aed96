use vstd::prelude::*;

verus! {

broadcast use vstd::std_specs::vec::group_vec_axioms;

use crate::digits::i64_dec_chars;

/// The largest integer magnitude that JSON-oriented consumers represent
/// exactly as a native number.
pub const JS_MAX_SAFE_INTEGER: i64 = 9007199254740991;

/// How a 64-bit integer travels across the JSON boundary: as a native number
/// when its magnitude stays within the safe-integer range, and as its decimal
/// digits otherwise. Internally a long is always a true 64-bit integer; this
/// type is only its presentation.
#[derive(Clone, Debug, PartialEq)]
pub enum LongNumber {
    Number(i64),
    BigInt(String),
}

/// The mathematical model of a `LongNumber`.
pub enum LongNumberV {
    Number(i64),
    BigInt(Seq<char>),
}

/// The model value that a `LongNumber` stands for.
pub open spec fn long_number_view(n: LongNumber) -> LongNumberV {
    match n {
        LongNumber::Number(v) => LongNumberV::Number(v),
        LongNumber::BigInt(s) => LongNumberV::BigInt(s@),
    }
}

/// The presentation of a 64-bit integer at the JSON boundary.
pub open spec fn spec_long_number(v: i64) -> LongNumberV {
    if -JS_MAX_SAFE_INTEGER <= v <= JS_MAX_SAFE_INTEGER {
        LongNumberV::Number(v)
    } else {
        LongNumberV::BigInt(i64_dec_chars(v))
    }
}

impl LongNumber {
    /// Classify a 64-bit integer for the JSON boundary: values within the
    /// safe-integer range stay numeric, all others become decimal text.
    pub fn from_i64(v: i64) -> (r: LongNumber)
        ensures
            long_number_view(r) == spec_long_number(v),
    {
        if -JS_MAX_SAFE_INTEGER <= v && v <= JS_MAX_SAFE_INTEGER {
            LongNumber::Number(v)
        } else {
            LongNumber::BigInt(crate::digits::i64_to_dec(v))
        }
    }
}

/// The typed in-memory representation of one NBT tree node.
///
/// `Float` and `Double` carry the IEEE-754 bit pattern of the value, exactly
/// as it stands on the wire; the library never performs floating-point
/// arithmetic on them. Text (names and `Str` payloads) is host text; the
/// modified-UTF-8 wire form is produced and consumed only by the binary
/// codec. A `Compound` is a sequence of uniquely named children in wire
/// order.
#[derive(Debug, PartialEq)]
pub enum TagType {
    End,
    Byte(i8),
    Short(i16),
    Int(i32),
    Long(i64),
    Float(u32),
    Double(u64),
    ByteArray(Vec<i8>),
    Str(String),
    List(Vec<TagType>),
    Compound(Vec<(String, TagType)>),
    IntArray(Vec<i32>),
    LongArray(Vec<i64>),
}

/// The mathematical model of a tag tree: the same shape as `TagType`, with
/// sequences in place of vectors and character sequences in place of strings.
pub enum TagV {
    End,
    Byte(i8),
    Short(i16),
    Int(i32),
    Long(i64),
    Float(u32),
    Double(u64),
    ByteArray(Seq<i8>),
    Str(Seq<char>),
    List(Seq<TagV>),
    Compound(Seq<(Seq<char>, TagV)>),
    IntArray(Seq<i32>),
    LongArray(Seq<i64>),
}

/// The model value that a `TagType` stands for.
pub open spec fn tag_view(t: TagType) -> TagV
    decreases t,
{
    match t {
        TagType::End => TagV::End,
        TagType::Byte(v) => TagV::Byte(v),
        TagType::Short(v) => TagV::Short(v),
        TagType::Int(v) => TagV::Int(v),
        TagType::Long(v) => TagV::Long(v),
        TagType::Float(v) => TagV::Float(v),
        TagType::Double(v) => TagV::Double(v),
        TagType::ByteArray(v) => TagV::ByteArray(v@),
        TagType::Str(s) => TagV::Str(s@),
        TagType::List(v) => TagV::List(
            Seq::new(
                v@.len(),
                |i: int|
                    if 0 <= i < v@.len() {
                        tag_view(v[i])
                    } else {
                        TagV::End
                    },
            ),
        ),
        TagType::Compound(v) => TagV::Compound(
            Seq::new(
                v@.len(),
                |i: int|
                    if 0 <= i < v@.len() {
                        (v[i].0@, tag_view(v[i].1))
                    } else {
                        (Seq::empty(), TagV::End)
                    },
            ),
        ),
        TagType::IntArray(v) => TagV::IntArray(v@),
        TagType::LongArray(v) => TagV::LongArray(v@),
    }
}

/// The model values of a vector of list elements.
pub open spec fn elems_view(v: Seq<TagType>) -> Seq<TagV> {
    Seq::new(v.len(), |i: int| tag_view(v[i]))
}

/// The model values of a vector of named compound children.
pub open spec fn entries_view(v: Seq<(String, TagType)>) -> Seq<(Seq<char>, TagV)> {
    Seq::new(v.len(), |i: int| (v[i].0@, tag_view(v[i].1)))
}

/// The wire type byte of a tag.
pub open spec fn spec_type_byte(t: TagV) -> u8 {
    match t {
        TagV::End => 0x00,
        TagV::Byte(_) => 0x01,
        TagV::Short(_) => 0x02,
        TagV::Int(_) => 0x03,
        TagV::Long(_) => 0x04,
        TagV::Float(_) => 0x05,
        TagV::Double(_) => 0x06,
        TagV::ByteArray(_) => 0x07,
        TagV::Str(_) => 0x08,
        TagV::List(_) => 0x09,
        TagV::Compound(_) => 0x0a,
        TagV::IntArray(_) => 0x0b,
        TagV::LongArray(_) => 0x0c,
    }
}

/// The position of the first child with the given name, or the count of
/// children when none has it.
pub open spec fn first_key(es: Seq<(Seq<char>, TagV)>, nm: Seq<char>) -> int
    decreases es.len(),
{
    if es.len() == 0 {
        0
    } else if es[0].0 == nm {
        0
    } else {
        1 + first_key(es.drop_first(), nm)
    }
}

/// Insert a named child into a compound: a repeated name replaces the
/// earlier child and moves to the end. Both the wire decoder and the type
/// resolver insert by this rule.
pub open spec fn upsert(es: Seq<(Seq<char>, TagV)>, nm: Seq<char>, t: TagV) -> Seq<
    (Seq<char>, TagV),
> {
    if first_key(es, nm) < es.len() {
        es.remove(first_key(es, nm)).push((nm, t))
    } else {
        es.push((nm, t))
    }
}

/// Fold a sequence of named children into `acc` by `upsert`, left to right.
pub open spec fn dedup_acc(
    entries: Seq<(Seq<char>, TagV)>,
    acc: Seq<(Seq<char>, TagV)>,
) -> Seq<(Seq<char>, TagV)>
    decreases entries.len(),
{
    if entries.len() == 0 {
        acc
    } else {
        dedup_acc(entries.drop_first(), upsert(acc, entries[0].0, entries[0].1))
    }
}

/// What a compound body with possibly repeated names denotes: each child
/// inserted in order, a later name overwriting an earlier one (last write
/// wins).
pub open spec fn dedup_entries(entries: Seq<(Seq<char>, TagV)>) -> Seq<(Seq<char>, TagV)> {
    dedup_acc(entries, Seq::empty())
}

/// A name that no child carries is not found.
proof fn lemma_first_key_none(es: Seq<(Seq<char>, TagV)>, nm: Seq<char>)
    requires
        forall|j: int| 0 <= j < es.len() ==> (#[trigger] es[j]).0 != nm,
    ensures
        first_key(es, nm) == es.len(),
    decreases es.len(),
{
    if es.len() > 0 {
        assert(forall|j: int|
            0 <= j < es.drop_first().len() ==> (#[trigger] es.drop_first()[j]) == es[j + 1]);
        lemma_first_key_none(es.drop_first(), nm);
    }
}

proof fn lemma_dedup_acc_unique(entries: Seq<(Seq<char>, TagV)>, acc: Seq<(Seq<char>, TagV)>)
    requires
        forall|i: int, j: int|
            0 <= i < j < (acc + entries).len() ==> (acc + entries)[i].0 != (acc + entries)[j].0,
    ensures
        dedup_acc(entries, acc) == acc + entries,
    decreases entries.len(),
{
    if entries.len() == 0 {
        assert(acc + entries =~= acc);
    } else {
        let e = entries[0];
        assert(forall|j: int| 0 <= j < acc.len() ==> (#[trigger] acc[j]).0 == (acc + entries)[j].0);
        assert((acc + entries)[acc.len() as int] == e);
        assert(forall|j: int| 0 <= j < acc.len() ==> (#[trigger] acc[j]).0 != e.0);
        lemma_first_key_none(acc, e.0);
        assert(upsert(acc, e.0, e.1) =~= acc + seq![e]);
        assert((acc + seq![e]) + entries.drop_first() =~= acc + entries);
        lemma_dedup_acc_unique(entries.drop_first(), acc + seq![e]);
        assert(dedup_acc(entries, acc) == (acc + seq![e]) + entries.drop_first());
    }
}

/// When no name repeats, inserting the children in order changes nothing.
pub proof fn lemma_dedup_unique(entries: Seq<(Seq<char>, TagV)>)
    requires
        forall|i: int, j: int| 0 <= i < j < entries.len() ==> entries[i].0 != entries[j].0,
    ensures
        dedup_entries(entries) == entries,
{
    let acc = Seq::<(Seq<char>, TagV)>::empty();
    assert(acc + entries =~= entries);
    lemma_dedup_acc_unique(entries, acc);
}

/// A list's model is the model of its element vector.
pub proof fn lemma_tag_view_list(v: Vec<TagType>)
    ensures
        tag_view(TagType::List(v)) == TagV::List(elems_view(v@)),
{
    assert(tag_view(TagType::List(v))->List_0 =~= elems_view(v@));
}

/// A compound's model is the model of its entry vector.
pub proof fn lemma_tag_view_compound(v: Vec<(String, TagType)>)
    ensures
        tag_view(TagType::Compound(v)) == TagV::Compound(entries_view(v@)),
{
    assert(tag_view(TagType::Compound(v))->Compound_0 =~= entries_view(v@));
}

/// The display name of the tag type with the given wire type byte.
pub open spec fn spec_type_name(b: u8) -> Seq<char> {
    if b == 0x00 {
        "TAG_End"@
    } else if b == 0x01 {
        "TAG_Byte"@
    } else if b == 0x02 {
        "TAG_Short"@
    } else if b == 0x03 {
        "TAG_Int"@
    } else if b == 0x04 {
        "TAG_Long"@
    } else if b == 0x05 {
        "TAG_Float"@
    } else if b == 0x06 {
        "TAG_Double"@
    } else if b == 0x07 {
        "TAG_Byte_Array"@
    } else if b == 0x08 {
        "TAG_String"@
    } else if b == 0x09 {
        "TAG_List"@
    } else if b == 0x0a {
        "TAG_Compound"@
    } else if b == 0x0b {
        "TAG_Int_Array"@
    } else {
        "TAG_Long_Array"@
    }
}

/// The wire type byte whose display name is `s`, if there is one.
pub open spec fn spec_name_to_byte(s: Seq<char>) -> Option<u8> {
    if s == "TAG_End"@ {
        Some(0x00u8)
    } else if s == "TAG_Byte"@ {
        Some(0x01u8)
    } else if s == "TAG_Short"@ {
        Some(0x02u8)
    } else if s == "TAG_Int"@ {
        Some(0x03u8)
    } else if s == "TAG_Long"@ {
        Some(0x04u8)
    } else if s == "TAG_Float"@ {
        Some(0x05u8)
    } else if s == "TAG_Double"@ {
        Some(0x06u8)
    } else if s == "TAG_Byte_Array"@ {
        Some(0x07u8)
    } else if s == "TAG_String"@ {
        Some(0x08u8)
    } else if s == "TAG_List"@ {
        Some(0x09u8)
    } else if s == "TAG_Compound"@ {
        Some(0x0au8)
    } else if s == "TAG_Int_Array"@ {
        Some(0x0bu8)
    } else if s == "TAG_Long_Array"@ {
        Some(0x0cu8)
    } else {
        None
    }
}

impl TagType {
    /// The display name of the tag type with wire type byte `tag_type`, or an
    /// error message for a byte no tag type uses.
    pub fn u8_to_str<'a>(tag_type: u8) -> (r: Result<&'a str, &'a str>)
        ensures
            r is Ok <==> tag_type <= 0x0c,
            r is Ok ==> r.unwrap()@ == spec_type_name(tag_type),
            r is Err ==> (r->Err_0)@ == "Unknown tag type"@,
    {
        match tag_type {
            0x00 => Ok("TAG_End"),
            0x01 => Ok("TAG_Byte"),
            0x02 => Ok("TAG_Short"),
            0x03 => Ok("TAG_Int"),
            0x04 => Ok("TAG_Long"),
            0x05 => Ok("TAG_Float"),
            0x06 => Ok("TAG_Double"),
            0x07 => Ok("TAG_Byte_Array"),
            0x08 => Ok("TAG_String"),
            0x09 => Ok("TAG_List"),
            0x0a => Ok("TAG_Compound"),
            0x0b => Ok("TAG_Int_Array"),
            0x0c => Ok("TAG_Long_Array"),
            _ => Err("Unknown tag type"),
        }
    }

    /// The wire type byte of the tag type whose display name is `tag_type`,
    /// or an error message for any other string.
    pub fn str_to_u8(tag_type: &str) -> (r: Result<u8, &str>)
        ensures
            r is Ok <==> spec_name_to_byte(tag_type@) is Some,
            r is Ok ==> r.unwrap() == spec_name_to_byte(tag_type@).unwrap(),
            r is Err ==> (r->Err_0)@ == "Unknown tag type"@,
    {
        let s = tag_type.to_owned();
        if s == "TAG_End".to_owned() {
            Ok(0x00)
        } else if s == "TAG_Byte".to_owned() {
            Ok(0x01)
        } else if s == "TAG_Short".to_owned() {
            Ok(0x02)
        } else if s == "TAG_Int".to_owned() {
            Ok(0x03)
        } else if s == "TAG_Long".to_owned() {
            Ok(0x04)
        } else if s == "TAG_Float".to_owned() {
            Ok(0x05)
        } else if s == "TAG_Double".to_owned() {
            Ok(0x06)
        } else if s == "TAG_Byte_Array".to_owned() {
            Ok(0x07)
        } else if s == "TAG_String".to_owned() {
            Ok(0x08)
        } else if s == "TAG_List".to_owned() {
            Ok(0x09)
        } else if s == "TAG_Compound".to_owned() {
            Ok(0x0a)
        } else if s == "TAG_Int_Array".to_owned() {
            Ok(0x0b)
        } else if s == "TAG_Long_Array".to_owned() {
            Ok(0x0c)
        } else {
            Err("Unknown tag type")
        }
    }

    /// The wire type byte of this tag.
    pub fn type_byte(&self) -> (r: u8)
        ensures
            r == spec_type_byte(tag_view(*self)),
    {
        match self {
            TagType::End => 0x00,
            TagType::Byte(_) => 0x01,
            TagType::Short(_) => 0x02,
            TagType::Int(_) => 0x03,
            TagType::Long(_) => 0x04,
            TagType::Float(_) => 0x05,
            TagType::Double(_) => 0x06,
            TagType::ByteArray(_) => 0x07,
            TagType::Str(_) => 0x08,
            TagType::List(_) => 0x09,
            TagType::Compound(_) => 0x0a,
            TagType::IntArray(_) => 0x0b,
            TagType::LongArray(_) => 0x0c,
        }
    }
}

} // verus!
