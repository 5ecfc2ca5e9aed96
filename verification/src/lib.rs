pub mod decode;
pub mod digits;
pub mod encode;
pub mod format;
pub mod gzip;
pub mod jsonval;
pub mod laws;
pub mod project;
pub mod resolve;
pub mod mutf8;
pub mod tag;
pub mod wire;

use vstd::prelude::*;

verus! {

/// The outer framing of an NBT byte stream: plain tag bytes, or the same
/// stream compressed as gzip.
#[derive(Clone, Copy, Debug, PartialEq, Eq, Structural)]
pub enum FileType {
    Raw,
    GZip,
}

/// Why a byte stream could not be decoded into a tag tree.
#[derive(Clone, Copy, Debug, PartialEq, Eq, Structural)]
pub enum NbtError {
    /// The leading bytes are neither a raw root compound nor a gzip header,
    /// or they claim gzip but the stream cannot be decompressed.
    MalformedEnvelope,
    /// The buffer ended in the middle of a tag.
    TruncatedInput,
    /// A type byte outside the range a tag may use, with the byte read.
    UnknownTagType(u8),
    /// A name or string payload is not valid modified UTF-8.
    InvalidText,
}

/// Why a JSON document could not be resolved into a tag tree, or a tag tree
/// could not be serialized.
#[derive(Clone, Copy, Debug, PartialEq, Eq, Structural)]
pub enum TagResolvingError {
    /// The value's shape, key suffix, or numeric range fits no tag type.
    UnsupportedValue,
}

impl TagResolvingError {
    /// A short description of the error.
    pub fn message(&self) -> (r: &'static str) {
        "Unsupported value."
    }
}

/// True when the buffer opens with the raw-envelope prefix: a compound type
/// byte followed by the first half of a zero name length.
pub open spec fn raw_prefix(s: Seq<u8>) -> bool {
    s.len() >= 2 && s[0] == 0x0au8 && s[1] == 0x00u8
}

/// True when the buffer opens with the gzip magic number.
pub open spec fn gzip_prefix(s: Seq<u8>) -> bool {
    s.len() >= 2 && s[0] == 0x1fu8 && s[1] == 0x8bu8
}

/// Decide the envelope of a byte buffer from its first two bytes, without
/// consuming it.
pub fn get_file_type(nbt: &[u8]) -> (r: Result<FileType, NbtError>)
    ensures
        r == Ok::<FileType, NbtError>(FileType::Raw) <==> raw_prefix(nbt@),
        r == Ok::<FileType, NbtError>(FileType::GZip) <==> gzip_prefix(nbt@),
        r is Err ==> r == Err::<FileType, NbtError>(NbtError::MalformedEnvelope),
{
    if nbt.len() < 2 {
        return Err(NbtError::MalformedEnvelope);
    }
    let b0 = nbt[0];
    let b1 = nbt[1];
    if b0 == 0x0a && b1 == 0x00 {
        Ok(FileType::Raw)
    } else if b0 == 0x1f && b1 == 0x8b {
        Ok(FileType::GZip)
    } else {
        Err(NbtError::MalformedEnvelope)
    }
}

} // verus!
