//! Data-segment packing: an interner for names, and writers that place record
//! fields by name.

use crate::abi::{BlobSlice, RecordLayout, OPTION_NONE, OPTION_SOME, SLICE_LEN_OFFSET, SLICE_PTR_OFFSET};
use crate::le;
use crate::le::{put_word, to_bits};
use vstd::hash_map::StringHashMap;
use vstd::prelude::*;

verus! {

/// What a [`NameInterner`] holds: the blob, and the slice handed out for each
/// interned name.
#[verifier::ext_equal]
pub struct InternerView {
    pub bytes: Seq<u8>,
    pub seen: Map<Seq<char>, BlobSlice>,
}

/// The bytes of `blob` that `slice` addresses.
pub open spec fn addressed(blob: Seq<u8>, slice: BlobSlice) -> Seq<u8> {
    blob.subrange(slice.off as int, slice.off + slice.len)
}

/// Whether `slice` lies within `blob` and addresses the utf-8 bytes of `name`.
pub open spec fn names(blob: Seq<u8>, slice: BlobSlice, name: Seq<char>) -> bool {
    &&& slice.off + slice.len <= blob.len()
    &&& addressed(blob, slice) == vstd::utf8::encode_utf8(name)
}

impl InternerView {
    /// Every slice handed out addresses its own name, unless the blob has
    /// outgrown 32-bit offsets.
    pub open spec fn wf(self) -> bool {
        self.bytes.len() <= u32::MAX ==> forall|name: Seq<char>| #[trigger]
            self.seen.contains_key(name) ==> names(self.bytes, self.seen[name], name)
    }

    /// The slice that interning `name` yields.
    pub open spec fn slice_for(self, name: Seq<char>) -> BlobSlice {
        if self.seen.contains_key(name) {
            self.seen[name]
        } else {
            BlobSlice {
                off: self.bytes.len() as u32,
                len: vstd::utf8::encode_utf8(name).len() as u32,
            }
        }
    }

    /// What is held after interning `name`.
    pub open spec fn interned(self, name: Seq<char>) -> InternerView {
        if self.seen.contains_key(name) {
            self
        } else {
            InternerView {
                bytes: self.bytes + vstd::utf8::encode_utf8(name),
                seen: self.seen.insert(name, self.slice_for(name)),
            }
        }
    }
}

/// Append-only string interner. A [`BlobSlice`] comes from `intern` alone and
/// the bytes surface through `into_bytes` alone. Interning a string again
/// returns the slice of the first time.
pub struct NameInterner {
    bytes: Vec<u8>,
    seen: StringHashMap<BlobSlice>,
}

impl View for NameInterner {
    type V = InternerView;

    closed spec fn view(&self) -> InternerView {
        InternerView { bytes: self.bytes@, seen: self.seen@ }
    }
}

impl NameInterner {
    /// An interner that holds nothing.
    pub fn new() -> (interner: Self)
        ensures
            interner@.bytes == Seq::<u8>::empty(),
            interner@.seen == Map::<Seq<char>, BlobSlice>::empty(),
            interner@.wf(),
    {
        NameInterner { bytes: Vec::new(), seen: StringHashMap::new() }
    }

    /// Appends `s` to the blob unless it is already there, and returns its
    /// slice. Offsets and lengths are the low 32 bits of the real ones.
    pub fn intern(&mut self, s: &str) -> (slice: BlobSlice)
        ensures
            slice == old(self)@.slice_for(s@),
            final(self)@ == old(self)@.interned(s@),
            old(self)@.wf() ==> final(self)@.wf(),
            old(self)@.wf() && final(self)@.bytes.len() <= u32::MAX ==> names(
                final(self)@.bytes,
                slice,
                s@,
            ),
    {
        proof {
            lemma_interned_wf(self@, s@);
        }
        if let Some(slice) = self.seen.get(s) {
            return *slice;
        }
        let encoded = s.as_bytes();
        let slice = BlobSlice { off: self.bytes.len() as u32, len: encoded.len() as u32 };
        self.bytes.extend_from_slice(encoded);
        self.seen.insert(s.to_owned(), slice);
        assert(self.bytes@ =~= old(self).bytes@ + encoded@);
        slice
    }

    /// The blob of all interned names.
    pub fn into_bytes(self) -> (bytes: Vec<u8>)
        ensures
            bytes@ == self@.bytes,
    {
        self.bytes
    }
}

proof fn lemma_interned_wf(v: InternerView, name: Seq<char>)
    ensures
        v.wf() ==> v.interned(name).wf(),
        v.wf() && v.interned(name).bytes.len() <= u32::MAX ==> names(
            v.interned(name).bytes,
            v.slice_for(name),
            name,
        ),
{
    let after = v.interned(name);
    let encoded = vstd::utf8::encode_utf8(name);
    if v.wf() && after.bytes.len() <= u32::MAX && !v.seen.contains_key(name) {
        assert forall|n: Seq<char>| #[trigger] after.seen.contains_key(n) implies names(
            after.bytes,
            after.seen[n],
            n,
        ) by {
            if n == name {
                assert(addressed(after.bytes, v.slice_for(name)) =~= encoded);
            } else {
                assert(v.seen.contains_key(n));
                assert(addressed(after.bytes, v.seen[n]) =~= addressed(v.bytes, v.seen[n]));
            }
        }
        assert(after.seen.contains_key(name));
    }
}

/// Interning a name a second time, whatever was interned in between, returns
/// the slice of the first time and adds nothing.
pub proof fn lemma_intern_again(v: InternerView, name: Seq<char>, between: Seq<Seq<char>>)
    ensures
        interned_all(v.interned(name), between).slice_for(name) == v.slice_for(name),
        interned_all(v.interned(name), between).interned(name) == interned_all(
            v.interned(name),
            between,
        ),
{
    lemma_interned_all_keeps(v.interned(name), between, name);
}

/// What is held after interning each of `names` in turn.
pub open spec fn interned_all(v: InternerView, names: Seq<Seq<char>>) -> InternerView
    decreases names.len(),
{
    if names.len() == 0 {
        v
    } else {
        interned_all(v, names.drop_last()).interned(names.last())
    }
}

/// A slice that was handed out stays: later names neither move it nor touch
/// the bytes that it addresses.
pub proof fn lemma_interned_all_keeps(v: InternerView, later: Seq<Seq<char>>, name: Seq<char>)
    requires
        v.seen.contains_key(name),
    ensures
        interned_all(v, later).seen.contains_key(name),
        interned_all(v, later).seen[name] == v.seen[name],
        v.bytes.is_prefix_of(interned_all(v, later).bytes),
    decreases later.len(),
{
    if later.len() > 0 {
        lemma_interned_all_keeps(v, later.drop_last(), name);
    }
}

/// The bytes of a `(ptr, len)` pair.
pub open spec fn slice_bytes(slice: BlobSlice) -> Seq<u8> {
    le::le_bytes(slice.off) + le::le_bytes(slice.len)
}

/// The `(ptr, len)` pair stored at `off`.
pub open spec fn slice_at(buf: Seq<u8>, off: int) -> BlobSlice {
    BlobSlice { off: le::word_at(buf, off), len: le::word_at(buf, off + 4) }
}

/// Writes a 32-bit little-endian integer into a byte buffer at `offset`.
pub fn write_le_i32(buf: &mut [u8], offset: usize, value: i32)
    requires
        offset + 4 <= old(buf)@.len(),
    ensures
        final(buf)@ == le::overwrite(old(buf)@, offset as int, le::le_bytes(le::bits(value))),
{
    put_word(buf, offset, to_bits(value));
}

/// Field-keyed writer over one record instance. It holds no borrow of the
/// blob, so writers of nested records interleave freely.
pub struct RecordWriter<'a> {
    pub layout: &'a RecordLayout,
    pub base: usize,
}

impl<'a> RecordWriter<'a> {
    /// Position of `field` within the blob.
    pub open spec fn position(&self, field: Seq<char>) -> int {
        self.base + self.layout.offsets@[field]
    }

    /// Whether the record has `field`, and `width` bytes from its position on
    /// lie within a blob of `len` bytes.
    pub open spec fn holds(&self, field: Seq<char>, width: int, len: nat) -> bool {
        &&& self.layout.offsets@.contains_key(field)
        &&& self.position(field) + width <= len
    }

    /// Anchors at a record whose bytes are already in the blob.
    pub fn at(layout: &'a RecordLayout, base: usize) -> (writer: Self)
        ensures
            writer.layout == layout,
            writer.base == base,
    {
        RecordWriter { layout, base }
    }

    /// Appends a zeroed record and anchors at it.
    pub fn extend_zero(blob: &mut Vec<u8>, layout: &'a RecordLayout) -> (writer: Self)
        ensures
            writer.layout == layout,
            writer.base == old(blob)@.len(),
            final(blob)@ == old(blob)@ + zeros(layout.size as nat),
    {
        let base = blob.len();
        let mut written: u32 = 0;
        while written < layout.size
            invariant
                written <= layout.size,
                blob@ == old(blob)@ + zeros(written as nat),
            decreases layout.size - written,
        {
            blob.push(0u8);
            written += 1;
            assert(blob@ =~= old(blob)@ + zeros(written as nat));
        }
        RecordWriter { layout, base }
    }

    /// Absolute byte offset of `field` within the blob.
    pub fn field_offset(&self, field: &str) -> (offset: usize)
        requires
            self.holds(field@, 0, usize::MAX as nat),
        ensures
            offset == self.position(field@),
    {
        self.base + self.layout.offset_of(field) as usize
    }

    /// A writer over the record nested at `field`.
    pub fn nested<'b>(&self, field: &str, nested_layout: &'b RecordLayout) -> (writer:
        RecordWriter<'b>)
        requires
            self.holds(field@, 0, usize::MAX as nat),
        ensures
            writer.layout == nested_layout,
            writer.base == self.position(field@),
    {
        RecordWriter::at(nested_layout, self.field_offset(field))
    }

    /// Writes a 32-bit field.
    pub fn write_i32(&self, blob: &mut [u8], field: &str, value: i32)
        requires
            self.holds(field@, 4, old(blob)@.len()),
        ensures
            final(blob)@ == le::overwrite(
                old(blob)@,
                self.position(field@),
                le::le_bytes(le::bits(value)),
            ),
    {
        assert(blob@.len() == blob.len());
        write_le_i32(blob, self.field_offset(field), value);
    }

    /// Writes a one-byte field.
    pub fn write_u8(&self, blob: &mut [u8], field: &str, value: u8)
        requires
            self.holds(field@, 1, old(blob)@.len()),
        ensures
            final(blob)@ == le::overwrite(old(blob)@, self.position(field@), seq![value]),
    {
        blob[self.field_offset(field)] = value;
        assert(blob@ =~= le::overwrite(old(blob)@, self.position(field@), seq![value]));
    }

    /// Writes the `(ptr, len)` pair of a `list<T>` or `string` field.
    pub fn write_slice(&self, blob: &mut [u8], field: &str, slice: BlobSlice)
        requires
            self.holds(field@, 8, old(blob)@.len()),
        ensures
            final(blob)@ == le::overwrite(old(blob)@, self.position(field@), slice_bytes(slice)),
    {
        assert(blob@.len() == blob.len());
        let off = self.field_offset(field);
        put_word(blob, off + SLICE_PTR_OFFSET as usize, slice.off);
        put_word(blob, off + SLICE_LEN_OFFSET as usize, slice.len);
        assert(blob@ =~= le::overwrite(old(blob)@, self.position(field@), slice_bytes(slice)));
    }

    /// Sets an option's discriminant to `none`. The payload is zeroed by
    /// `extend_zero`.
    pub fn write_option_none(&self, blob: &mut [u8], field: &str)
        requires
            self.holds(field@, 1, old(blob)@.len()),
        ensures
            final(blob)@ == le::overwrite(old(blob)@, self.position(field@), seq![OPTION_NONE]),
    {
        self.write_u8(blob, field, OPTION_NONE);
    }

    /// Sets an option's discriminant to `some`. The payload is written by a
    /// separate writer.
    pub fn write_option_some(&self, blob: &mut [u8], field: &str)
        requires
            self.holds(field@, 1, old(blob)@.len()),
        ensures
            final(blob)@ == le::overwrite(old(blob)@, self.position(field@), seq![OPTION_SOME]),
    {
        self.write_u8(blob, field, OPTION_SOME);
    }
}

/// A run of `n` zero bytes.
pub open spec fn zeros(n: nat) -> Seq<u8> {
    Seq::new(n, |k: int| 0u8)
}

/// A `(ptr, len)` pair reads back as written.
pub proof fn lemma_slice_reads_back(buf: Seq<u8>, off: int, slice: BlobSlice)
    requires
        0 <= off,
        off + 8 <= buf.len(),
    ensures
        slice_at(le::overwrite(buf, off, slice_bytes(slice)), off) == slice,
{
    let after = le::overwrite(buf, off, slice_bytes(slice));
    le::lemma_le_value_of_bytes(slice.off);
    le::lemma_le_value_of_bytes(slice.len);
    assert(after.subrange(off, off + 4) =~= le::le_bytes(slice.off));
    assert(after.subrange(off + 4, off + 8) =~= le::le_bytes(slice.len));
}

/// Writes to places that do not overlap can be made in either order, so
/// writers over different fields, nested ones included, interleave freely.
pub proof fn lemma_writes_commute(buf: Seq<u8>, a: int, x: Seq<u8>, b: int, y: Seq<u8>)
    requires
        a + x.len() <= b || b + y.len() <= a,
    ensures
        le::overwrite(le::overwrite(buf, a, x), b, y) == le::overwrite(le::overwrite(buf, b, y), a, x),
{
    assert(le::overwrite(le::overwrite(buf, a, x), b, y) =~= le::overwrite(le::overwrite(buf, b, y), a, x));
}

/// What interning does: the name is held from then on, every other name keeps
/// its slice, and the blob grows by the name's bytes unless they were there.
pub proof fn lemma_interned_state(v: InternerView, name: Seq<char>, other: Seq<char>)
    ensures
        v.interned(name).seen.contains_key(name),
        v.interned(name).seen[name] == v.slice_for(name),
        other != name ==> (v.interned(name).seen.contains_key(other) <==> v.seen.contains_key(
            other,
        )),
        v.seen.contains_key(other) ==> v.interned(name).seen[other] == v.seen[other],
        v.interned(name).bytes == if v.seen.contains_key(name) {
            v.bytes
        } else {
            v.bytes + vstd::utf8::encode_utf8(name)
        },
{
}

/// Of any names interned one after the other, each is addressed by its own
/// slice in the end, as long as the blob does not outgrow 32-bit offsets.
pub proof fn lemma_interned_text(all: Seq<Seq<char>>, k: int)
    requires
        0 <= k < all.len(),
        interned_all(InternerView { bytes: Seq::empty(), seen: Map::empty() }, all).bytes.len()
            <= u32::MAX,
    ensures
        ({
            let v = interned_all(InternerView { bytes: Seq::empty(), seen: Map::empty() }, all);
            let slice = v.seen[all[k]];
            &&& v.seen.contains_key(all[k])
            &&& slice.len == vstd::utf8::encode_utf8(all[k]).len()
            &&& slice.off + slice.len <= v.bytes.len()
            &&& v.bytes.subrange(slice.off as int, slice.off + slice.len)
                == vstd::utf8::encode_utf8(all[k])
        }),
{
    let none = InternerView { bytes: Seq::empty(), seen: Map::empty() };
    lemma_interned_all_wf(none, all);
    let head = all.take(k + 1);
    let tail = all.skip(k + 1);
    lemma_interned_all_split(none, all, k + 1);
    assert(head.drop_last() =~= all.take(k));
    lemma_interned_all_keeps(interned_all(none, head), tail, all[k]);
    let v = interned_all(none, all);
    assert(v.seen.contains_key(all[k]));
    assert(names(v.bytes, v.seen[all[k]], all[k]));
    assert(addressed(v.bytes, v.seen[all[k]]).len() == v.seen[all[k]].len);
}

proof fn lemma_interned_all_wf(v: InternerView, all: Seq<Seq<char>>)
    requires
        v.wf(),
    ensures
        interned_all(v, all).wf(),
    decreases all.len(),
{
    if all.len() > 0 {
        lemma_interned_all_wf(v, all.drop_last());
        lemma_interned_wf(interned_all(v, all.drop_last()), all.last());
    }
}

proof fn lemma_interned_all_split(v: InternerView, all: Seq<Seq<char>>, k: int)
    requires
        0 <= k <= all.len(),
    ensures
        interned_all(v, all) == interned_all(interned_all(v, all.take(k)), all.skip(k)),
    decreases all.len(),
{
    if k == all.len() {
        assert(all.take(k) =~= all);
    } else {
        lemma_interned_all_split(v, all.drop_last(), k);
        assert(all.drop_last().take(k) =~= all.take(k));
        assert(all.skip(k).drop_last() =~= all.drop_last().skip(k));
    }
}

/// A word written to a field reads back at the record's base plus the field's
/// offset, and no other byte changes.
pub proof fn lemma_word_written(writer: RecordWriter<'_>, blob: Seq<u8>, field: Seq<char>, value: i32)
    requires
        writer.layout.offsets@.contains_key(field),
        writer.base + writer.layout.offsets@[field] + 4 <= blob.len(),
    ensures
        writer.holds(field, 4, blob.len()),
        ({
            let at = writer.base + writer.layout.offsets@[field];
            let after = le::overwrite(
                blob,
                writer.position(field),
                le::le_bytes(le::bits(value)),
            );
            &&& after.len() == blob.len()
            &&& le::signed(le::word_at(after, at)) == value
            &&& forall|k: int| #![trigger after[k]]
                0 <= k < blob.len() && !(at <= k < at + 4) ==> after[k] == blob[k]
        }),
{
    let at = writer.base + writer.layout.offsets@[field];
    le::lemma_word_at_overwrite(blob, at, le::bits(value));
    le::lemma_bits_signed(value, 0);
}

/// A byte written to a field stands at the record's base plus the field's
/// offset, and no other byte changes.
pub proof fn lemma_byte_written(writer: RecordWriter<'_>, blob: Seq<u8>, field: Seq<char>, value: u8)
    requires
        writer.layout.offsets@.contains_key(field),
        writer.base + writer.layout.offsets@[field] + 1 <= blob.len(),
    ensures
        writer.holds(field, 1, blob.len()),
        le::overwrite(blob, writer.position(field), seq![value]) == blob.update(
            writer.base + writer.layout.offsets@[field],
            value,
        ),
{
    assert(le::overwrite(blob, writer.position(field), seq![value]) =~= blob.update(
        writer.base + writer.layout.offsets@[field],
        value,
    ));
}

/// A pair written to a field reads back from two words, the pointer first, at
/// the record's base plus the field's offset, and no other byte changes.
pub proof fn lemma_slice_written(
    writer: RecordWriter<'_>,
    blob: Seq<u8>,
    field: Seq<char>,
    slice: BlobSlice,
)
    requires
        writer.layout.offsets@.contains_key(field),
        writer.base + writer.layout.offsets@[field] + 8 <= blob.len(),
    ensures
        writer.holds(field, 8, blob.len()),
        ({
            let at = writer.base + writer.layout.offsets@[field];
            let after = le::overwrite(blob, writer.position(field), slice_bytes(slice));
            &&& after.len() == blob.len()
            &&& le::word_at(after, at) == slice.off
            &&& le::word_at(after, at + 4) == slice.len
            &&& forall|k: int| #![trigger after[k]]
                0 <= k < blob.len() && !(at <= k < at + 8) ==> after[k] == blob[k]
        }),
{
    lemma_slice_reads_back(blob, writer.base + writer.layout.offsets@[field], slice);
}

/// The pair stored at `off` is made of the word there and the next one.
pub proof fn lemma_slice_words(buf: Seq<u8>, off: int)
    ensures
        slice_at(buf, off).off == le::word_at(buf, off),
        slice_at(buf, off).len == le::word_at(buf, off + 4),
{
}

/// A run of zeros is as long as it says, and zero throughout.
pub proof fn lemma_zeros(n: nat, k: int)
    requires
        0 <= k < n,
    ensures
        zeros(n).len() == n,
        zeros(n)[k] == 0,
{
}

} // verus!
