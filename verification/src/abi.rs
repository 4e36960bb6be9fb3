//! Canonical-ABI facts that the adapter's data layout rests on.

use vstd::hash_map::StringHashMap;
use vstd::prelude::*;

verus! {

/// Discriminant byte of an absent `option`.
pub const OPTION_NONE: u8 = 0;

/// Discriminant byte of a present `option`.
pub const OPTION_SOME: u8 = 1;

/// Offset of the pointer word within a `(ptr, len)` pair.
pub const SLICE_PTR_OFFSET: u32 = 0;

/// Offset of the length word within a `(ptr, len)` pair.
pub const SLICE_LEN_OFFSET: u32 = 4;

/// Bytes that one `string` takes up in memory: a `(ptr, len)` pair.
pub const STRING_FLAT_BYTES: u32 = 8;

/// Longest utf-8 encoding of one `char`, in bytes.
pub const MAX_UTF8_LEN: u32 = 4;

/// A `(offset, length)` pair that addresses bytes of a blob.
#[derive(Clone, Copy, Debug, PartialEq, Eq, Structural)]
pub struct BlobSlice {
    pub off: u32,
    pub len: u32,
}

impl BlobSlice {
    /// The slice of nothing.
    pub fn empty() -> (slice: BlobSlice)
        ensures
            slice == (BlobSlice { off: 0, len: 0 }),
    {
        BlobSlice { off: 0, len: 0 }
    }
}

/// Size, alignment and field offsets of a record in linear memory. Fields are
/// looked up by their names.
pub struct RecordLayout {
    pub size: u32,
    pub align: u32,
    /// The offset of each field, by name.
    pub offsets: StringHashMap<u32>,
}

impl RecordLayout {
    /// A layout that has no fields yet.
    pub fn new(size: u32, align: u32) -> (layout: Self)
        ensures
            layout.size == size,
            layout.align == align,
            layout.offsets@ == Map::<Seq<char>, u32>::empty(),
    {
        RecordLayout { size, align, offsets: StringHashMap::new() }
    }

    /// This layout with `field` placed at `offset`.
    pub fn with_field(self, field: &str, offset: u32) -> (layout: Self)
        ensures
            layout.size == self.size,
            layout.align == self.align,
            layout.offsets@ == self.offsets@.insert(field@, offset),
    {
        let mut layout = self;
        layout.offsets.insert(field.to_owned(), offset);
        layout
    }

    /// The byte offset of `field` from the start of the record.
    pub fn offset_of(&self, field: &str) -> (offset: u32)
        requires
            self.offsets@.contains_key(field@),
        ensures
            offset == self.offsets@[field@],
    {
        match self.offsets.get(field) {
            Some(offset) => *offset,
            None => vstd::pervasive::unreached(),
        }
    }
}

} // verus!
