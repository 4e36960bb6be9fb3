use splicer::abi::{BlobSlice, RecordLayout};
use splicer::blob::{write_le_i32, NameInterner, RecordWriter};

fn slice(off: u32, len: u32) -> BlobSlice {
    BlobSlice { off, len }
}

#[test]
fn interning_appends_once() {
    let mut names = NameInterner::new();
    assert_eq!(names.intern("circle"), slice(0, 6));
    assert_eq!(names.intern("square"), slice(6, 6));
    assert_eq!(names.intern("circle"), slice(0, 6));
    assert_eq!(names.intern(""), slice(12, 0));
    assert_eq!(names.intern("grün"), slice(12, 5));
    assert_eq!(names.intern("square"), slice(6, 6));
    assert_eq!(names.into_bytes(), "circlesquaregrün".as_bytes());
}

#[test]
fn words_are_little_endian() {
    let mut buf = [0xffu8; 6];
    write_le_i32(&mut buf, 1, 0x0102_0304);
    assert_eq!(buf, [0xff, 4, 3, 2, 1, 0xff]);
    write_le_i32(&mut buf, 1, -2);
    assert_eq!(buf, [0xff, 0xfe, 0xff, 0xff, 0xff, 0xff]);
}

#[test]
fn fields_go_to_their_offsets() {
    let layout = RecordLayout::new(16, 4)
        .with_field("tag", 0)
        .with_field("name", 4)
        .with_field("count", 12);
    assert_eq!(layout.offset_of("name"), 4);
    let mut blob = vec![0xaau8, 0xaa];
    let record = RecordWriter::extend_zero(&mut blob, &layout);
    assert_eq!(record.base, 2);
    assert_eq!(blob.len(), 18);
    record.write_u8(&mut blob, "tag", 7);
    record.write_slice(&mut blob, "name", slice(0x11, 0x22));
    record.write_i32(&mut blob, "count", 0x33);
    assert_eq!(record.field_offset("count"), 14);
    assert_eq!(
        blob,
        [0xaa, 0xaa, 7, 0, 0, 0, 0x11, 0, 0, 0, 0x22, 0, 0, 0, 0x33, 0, 0, 0]
    );
}

#[test]
fn nested_writers_interleave() {
    let outer = RecordLayout::new(12, 4).with_field("head", 0).with_field("inner", 4);
    let inner = RecordLayout::new(8, 4).with_field("low", 0).with_field("high", 4);
    let mut one = vec![0u8; 12];
    let record = RecordWriter::at(&outer, 0);
    let nested = record.nested("inner", &inner);
    assert_eq!(nested.base, 4);
    nested.write_i32(&mut one, "high", 3);
    record.write_i32(&mut one, "head", 1);
    nested.write_i32(&mut one, "low", 2);

    let mut other = vec![0u8; 12];
    record.write_i32(&mut other, "head", 1);
    nested.write_i32(&mut other, "low", 2);
    nested.write_i32(&mut other, "high", 3);
    assert_eq!(one, other);
    assert_eq!(one, [1, 0, 0, 0, 2, 0, 0, 0, 3, 0, 0, 0]);
}

#[test]
fn options_set_their_discriminant() {
    let layout = RecordLayout::new(8, 4).with_field("value", 0);
    let mut blob = Vec::new();
    let record = RecordWriter::extend_zero(&mut blob, &layout);
    record.write_option_some(&mut blob, "value");
    assert_eq!(blob, [1, 0, 0, 0, 0, 0, 0, 0]);
    record.write_option_none(&mut blob, "value");
    assert_eq!(blob, [0, 0, 0, 0, 0, 0, 0, 0]);
}
