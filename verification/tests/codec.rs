use postbag::block::MAX_CHUNK;
use postbag::cfg::{Full, Slim, Version};
use postbag::de::{Deserializer, EnumVariant, SeqAccess, StructFieldAccess, StructSeqAccess, VariantId};
use postbag::error::Error;
use postbag::ser::Serializer;
use postbag::skip_read::SkipRead;
use postbag::skip_write::{SkipWrite, write_block};
use postbag::source::SliceSource;

fn full() -> Full {
    Full::new().with_header(false)
}

fn slim() -> Slim {
    Slim::new().with_header(false)
}

fn full_reader(bytes: &[u8]) -> Deserializer<SliceSource, true> {
    Deserializer::new(SliceSource::new(bytes.to_vec()), full())
}

fn slim_reader(bytes: &[u8]) -> Deserializer<SliceSource, false> {
    Deserializer::new(SliceSource::new(bytes.to_vec()), slim())
}

#[test]
fn primitives_are_written_as_the_format_says() {
    let mut ser = Serializer::<true>::new(full());
    ser.serialize_bool(true);
    ser.serialize_bool(false);
    ser.serialize_i8(-1);
    ser.serialize_u16(300);
    ser.serialize_i32(-1);
    ser.serialize_i64(1);
    ser.serialize_u8(0xab);
    ser.serialize_f32_bits(0x3f80_0000);
    assert_eq!(
        ser.finalize(),
        vec![0x01, 0x00, 0xff, 0xac, 0x02, 0x01, 0x02, 0xab, 0x00, 0x00, 0x80, 0x3f]
    );
}

#[test]
fn primitives_are_read_back() {
    let mut ser = Serializer::<true>::new(full());
    ser.serialize_bool(true);
    ser.serialize_i8(-7);
    ser.serialize_i16(-300);
    ser.serialize_i32(i32::MIN);
    ser.serialize_i64(i64::MAX);
    ser.serialize_i128(-5);
    ser.serialize_u16(u16::MAX);
    ser.serialize_u32(u32::MAX);
    ser.serialize_u64(u64::MAX);
    ser.serialize_u128(u128::MAX);
    ser.serialize_f32_bits(1.5f32.to_bits());
    ser.serialize_f64_bits((-2.25f64).to_bits());
    let bytes = ser.finalize();

    let mut de = full_reader(&bytes);
    assert_eq!(de.deserialize_bool().unwrap(), true);
    assert_eq!(de.deserialize_i8().unwrap(), -7);
    assert_eq!(de.deserialize_i16().unwrap(), -300);
    assert_eq!(de.deserialize_i32().unwrap(), i32::MIN);
    assert_eq!(de.deserialize_i64().unwrap(), i64::MAX);
    assert_eq!(de.deserialize_i128().unwrap(), -5);
    assert_eq!(de.read_varint_u16().unwrap(), u16::MAX);
    assert_eq!(de.read_varint_u32().unwrap(), u32::MAX);
    assert_eq!(de.read_varint_u64().unwrap(), u64::MAX);
    assert_eq!(de.read_varint_u128().unwrap(), u128::MAX);
    assert_eq!(f32::from_bits(de.deserialize_f32_bits().unwrap()), 1.5);
    assert_eq!(f64::from_bits(de.deserialize_f64_bits().unwrap()), -2.25);
    assert!(matches!(de.deserialize_u8(), Err(Error::Io(_))));
}

#[test]
fn strings_state_their_length() {
    let mut ser = Serializer::<false>::new(slim());
    ser.serialize_str("hi");
    ser.serialize_bytes(&[1, 2, 3]);
    ser.serialize_char('é');
    let bytes = ser.finalize();
    assert_eq!(bytes, vec![0x02, b'h', b'i', 0x03, 1, 2, 3, 0x02, 0xc3, 0xa9]);

    let mut de = slim_reader(&bytes);
    assert_eq!(de.deserialize_string().unwrap(), "hi");
    assert_eq!(de.deserialize_byte_buf().unwrap(), vec![1, 2, 3]);
    assert_eq!(de.deserialize_char().unwrap(), 'é');
}

#[test]
fn a_char_reader_takes_the_first_character_of_a_string() {
    let mut ser = Serializer::<false>::new(slim());
    ser.serialize_str("xyz");
    ser.serialize_u8(9);
    let bytes = ser.finalize();

    let mut de = slim_reader(&bytes);
    assert_eq!(de.deserialize_char().unwrap(), 'x');
    assert_eq!(de.deserialize_u8().unwrap(), 9);
}

#[test]
fn bad_bytes_are_refused() {
    assert!(matches!(full_reader(&[2]).deserialize_bool(), Err(Error::BadBool)));
    assert!(matches!(full_reader(&[2]).deserialize_option(), Err(Error::BadOption)));
    assert!(matches!(full_reader(&[0x02, 0xff, 0xfe]).deserialize_string(), Err(Error::BadString)));
    assert!(matches!(full_reader(&[0x01, 0xff]).deserialize_char(), Err(Error::BadChar)));
    assert!(matches!(full_reader(&[0x00]).deserialize_char(), Err(Error::BadChar)));
    assert!(matches!(full_reader(&[0x80, 0x80, 0x80, 0x80]).read_varint_u16(), Err(Error::BadVarint)));
    assert!(matches!(full_reader(&[0xff, 0xff, 0x04]).read_varint_u16(), Err(Error::BadVarint)));
    assert_eq!(full_reader(&[0xff, 0xff, 0x03]).read_varint_u16().unwrap(), u16::MAX);
    assert!(matches!(full_reader(&[0x7d]).read_identifier(), Err(Error::BadIdentifier)));
    assert!(matches!(full_reader(&[0x02, 0xff, 0xfe]).read_identifier(), Err(Error::BadIdentifier)));
    assert!(matches!(full_reader(&[0x7d, 0x05]).begin_seq(), Err(Error::BadLen)));
    assert!(matches!(full_reader(&[0x02]).has_uncounted_element(), Err(Error::BadLen)));
}

#[test]
fn options_carry_a_tag() {
    let mut ser = Serializer::<false>::new(slim());
    ser.serialize_none();
    let owns = ser.serialize_some();
    assert!(!owns);
    ser.serialize_u8(5);
    let bytes = ser.finalize();
    assert_eq!(bytes, vec![0x00, 0x01, 0x05]);

    let mut de = slim_reader(&bytes);
    assert_eq!(de.deserialize_option().unwrap(), None);
    assert_eq!(de.deserialize_option().unwrap(), Some(false));
    assert_eq!(de.deserialize_u8().unwrap(), 5);
}

#[test]
fn identifiers_are_numbered_short_or_long() {
    let long = "a".repeat(70);
    let mut ser = Serializer::<true>::new(full());
    ser.serialize_unit_variant(0, "_7");
    ser.serialize_unit_variant(0, "ab");
    ser.serialize_unit_variant(0, &long);
    let bytes = ser.finalize();
    let mut expected = vec![0x41 + 7, 0x02, b'a', b'b', 0x40, 70];
    expected.extend(long.as_bytes());
    assert_eq!(bytes, expected);

    let mut de = full_reader(&bytes);
    assert_eq!(de.read_identifier().unwrap(), ("_7".to_string(), false));
    assert_eq!(de.read_identifier().unwrap(), ("ab".to_string(), false));
    assert_eq!(de.read_identifier().unwrap(), (long, false));
}

#[test]
fn the_textual_form_of_a_numbered_name_reads_as_that_name() {
    let mut de = full_reader(&[0x02, b'_', b'3', 0x44 | 0x80]);
    assert_eq!(de.read_identifier().unwrap(), ("_3".to_string(), false));
    assert_eq!(de.read_identifier().unwrap(), ("_3".to_string(), true));
}

#[test]
fn a_full_struct_puts_each_field_value_in_a_block() {
    let mut ser = Serializer::<true>::new(full());
    ser.serialize_struct(2);
    let owns = ser.begin_field("a");
    assert!(owns);
    let saved = ser.enter(owns).unwrap();
    ser.serialize_u8(7);
    ser.exit(saved);
    ser.end_field();
    let owns = ser.begin_field("b");
    let saved = ser.enter(owns).unwrap();
    ser.serialize_str("hi");
    ser.exit(saved);
    ser.end_field();
    ser.end_struct();
    let bytes = ser.finalize();
    assert_eq!(
        bytes,
        vec![0x02, 0x01, b'a', 0x01, 0x07, 0x01, b'b', 0x02, b'h', b'i']
    );

    let mut de = full_reader(&bytes);
    let len = de.begin_struct().unwrap();
    assert_eq!(len, Some(2));
    let mut fields = StructFieldAccess::new(len);
    let mut read = Vec::new();
    while fields.has_next(&mut de).unwrap() {
        let (name, _) = de.read_identifier().unwrap();
        de.begin_field_value();
        let saved = de.enter(de.owns_block()).unwrap();
        if name == "a" {
            read.push(format!("a={}", de.deserialize_u8().unwrap()));
        } else {
            read.push(format!("b={}", de.deserialize_string().unwrap()));
        }
        de.exit(saved);
        de.end_field_value().unwrap();
    }
    de.end_struct().unwrap();
    assert_eq!(read, vec!["a=7".to_string(), "b=hi".to_string()]);
}

#[test]
fn an_unknown_field_is_skipped() {
    // A field `z` holding a struct the reader does not know.
    let mut de = full_reader(&[0x01, 0x01, b'z', 0x03, 0x01, 0x02, 0x03, 0x09]);
    let len = de.begin_struct().unwrap();
    let mut fields = StructFieldAccess::new(len);
    assert!(fields.has_next(&mut de).unwrap());
    let (name, _) = de.read_identifier().unwrap();
    assert_eq!(name, "z");
    de.begin_field_value();
    de.end_field_value().unwrap();
    assert!(!fields.has_next(&mut de).unwrap());
    assert_eq!(de.deserialize_u8().unwrap(), 9);
}

#[test]
fn a_slim_struct_states_its_field_count_and_sits_in_a_block() {
    let mut ser = Serializer::<false>::new(slim());
    ser.serialize_struct(2);
    ser.serialize_u8(1);
    ser.serialize_u8(2);
    ser.end_struct();
    let bytes = ser.finalize();
    assert_eq!(bytes, vec![0x02, 0x02, 0x01, 0x02]);

    let mut de = slim_reader(&bytes);
    let len = de.begin_struct().unwrap().unwrap();
    let mut fields = StructSeqAccess::new(len);
    let mut got = Vec::new();
    while fields.has_next() {
        got.push(de.deserialize_u8().unwrap());
    }
    de.end_struct().unwrap();
    assert_eq!(got, vec![1, 2]);
}

#[test]
fn a_sequence_of_unknown_length_announces_each_element() {
    let mut ser = Serializer::<true>::new(full());
    let seq = ser.serialize_seq(None);
    for v in [1u8, 2] {
        seq.before_element(&mut ser);
        ser.serialize_u8(v);
    }
    seq.end(&mut ser);
    let bytes = ser.finalize();
    assert_eq!(bytes, vec![0x7d, 0x00, 0x05, 0x01, 0x01, 0x01, 0x02, 0x00]);

    let mut de = full_reader(&bytes);
    let len = de.begin_seq().unwrap();
    assert_eq!(len, None);
    let mut elements = SeqAccess::new(len);
    let mut got = Vec::new();
    while elements.has_next(&mut de).unwrap() {
        got.push(de.deserialize_u8().unwrap());
    }
    de.end_seq(len).unwrap();
    assert_eq!(got, vec![1, 2]);
}

#[test]
fn a_length_of_the_special_value_is_written_twice() {
    let mut ser = Serializer::<true>::new(full());
    let seq = ser.serialize_seq(Some(125));
    seq.end(&mut ser);
    let map = ser.serialize_map(Some(3));
    map.end(&mut ser);
    let bytes = ser.finalize();
    assert_eq!(bytes, vec![0x7d, 0x7d, 0x03]);

    let mut de = full_reader(&bytes);
    assert_eq!(de.begin_seq().unwrap(), Some(125));
    assert_eq!(de.begin_seq().unwrap(), Some(3));
}

#[test]
fn the_legacy_format_announces_nothing() {
    let cfg = full().with_version(Version::Postbag0_4);
    let mut ser = Serializer::<true>::new(cfg);
    let seq = ser.serialize_seq(None);
    seq.before_element(&mut ser);
    ser.serialize_u8(4);
    seq.end(&mut ser);
    let bytes = ser.finalize();
    assert_eq!(bytes, vec![0x7d, 0x00, 0x01, 0x04]);

    let mut de = Deserializer::<SliceSource, true>::new(SliceSource::new(bytes), cfg);
    let len = de.begin_seq().unwrap();
    let mut elements = SeqAccess::new(len);
    assert!(elements.has_next(&mut de).unwrap());
    assert_eq!(de.deserialize_u8().unwrap(), 4);
    assert!(!elements.has_next(&mut de).unwrap());
    de.end_seq(len).unwrap();
}

#[test]
fn a_variant_payload_outside_a_block_gets_one() {
    let mut ser = Serializer::<true>::new(full());
    let (block, owns) = ser.begin_newtype_variant(1, "_1");
    assert!(block);
    assert!(owns);
    let saved = ser.enter(owns).unwrap();
    ser.serialize_u8(5);
    ser.exit(saved);
    ser.end_block();
    let bytes = ser.finalize();
    assert_eq!(bytes, vec![0xc2, 0x01, 0x05]);

    let mut de = full_reader(&bytes);
    let (id, block, owns) = de.read_variant().unwrap();
    assert!(matches!(id, VariantId::Name(ref n) if n == "_1"));
    let variant: EnumVariant = de.open_variant(owns, block);
    assert_eq!(de.deserialize_u8().unwrap(), 5);
    variant.finish(&mut de).unwrap();
}

#[test]
fn a_slim_variant_is_its_index() {
    let mut ser = Serializer::<false>::new(slim());
    ser.serialize_unit_variant(3, "ignored");
    let (block, _) = ser.begin_newtype_variant(2, "ignored");
    assert!(!block);
    ser.serialize_u8(8);
    let bytes = ser.finalize();
    assert_eq!(bytes, vec![0x03, 0x02, 0x08]);

    let mut de = slim_reader(&bytes);
    let (id, block, _) = de.read_variant().unwrap();
    assert!(matches!(id, VariantId::Index(3)));
    assert!(!block);
}

#[test]
fn the_depth_limit_is_enforced_on_both_sides() {
    let mut ser = Serializer::<true>::new(full().with_depth_limit(2));
    let a = ser.enter(false).unwrap();
    let b = ser.enter(false).unwrap();
    assert!(matches!(ser.enter(false), Err(Error::RecursionLimit)));
    ser.exit(b);
    ser.exit(a);

    let mut de = Deserializer::<SliceSource, true>::new(SliceSource::new(vec![]), full().with_depth_limit(2));
    let a = de.enter(false).unwrap();
    let b = de.enter(false).unwrap();
    assert!(matches!(de.enter(false), Err(Error::RecursionLimit)));
    de.exit(b);
    de.exit(a);
    assert!(de.enter(false).is_ok());
}

#[test]
fn a_recoverable_value_is_skipped_after_failing() {
    // A recoverable `u8` whose block holds a string, then another byte.
    let mut ser = Serializer::<true>::new(full());
    let (block, owns) = ser.begin_newtype_struct(true);
    assert!(block);
    assert!(owns);
    let saved = ser.enter(owns).unwrap();
    ser.serialize_str("bad");
    ser.exit(saved);
    ser.end_block();
    ser.serialize_u8(9);
    let bytes = ser.finalize();
    assert_eq!(bytes, vec![0x03, b'b', b'a', b'd', 0x09]);

    let mut de = full_reader(&bytes);
    let (depth, owns) = de.begin_newtype_struct(true);
    assert!(owns);
    let saved = de.enter(owns).unwrap();
    assert!(matches!(de.deserialize_bool(), Err(Error::BadBool)));
    de.exit(saved);
    de.end_recoverable(depth).unwrap();
    assert_eq!(de.deserialize_u8().unwrap(), 9);
}

#[test]
fn blocks_are_chunked() {
    let content: Vec<u8> = (0..MAX_CHUNK + 2).map(|i| i as u8).collect();
    let mut out = Vec::new();
    write_block(&mut out, &content);
    assert_eq!(&out[..3], &[0xff, 0xff, 0x03]);
    assert_eq!(out[3 + MAX_CHUNK], 0x02);
    assert_eq!(out.len(), 3 + MAX_CHUNK + 1 + 2);

    let mut exact = Vec::new();
    write_block(&mut exact, &vec![7u8; MAX_CHUNK]);
    assert_eq!(exact.len(), 3 + MAX_CHUNK + 1);
    assert_eq!(exact[exact.len() - 1], 0x00);

    let mut reader = SkipRead::new(SliceSource::new(out));
    assert_eq!(reader.read_skippable_block().unwrap(), content);
}

#[test]
fn skip_write_frames_nested_blocks() {
    let mut w = SkipWrite::new();
    w.write(&[1]);
    w.start_skippable();
    w.write(&[2]);
    w.start_skippable();
    w.write(&[3, 4]);
    w.end_skippable();
    w.end_skippable();
    assert_eq!(w.into_inner(), vec![1, 0x04, 2, 0x02, 3, 4]);
}

#[test]
fn skip_read_skips_what_is_left_of_a_block() {
    let mut r = SkipRead::new(SliceSource::new(vec![0x03, 1, 2, 3, 9]));
    r.start_skippable();
    assert_eq!(r.read_u8().unwrap(), 1);
    assert_eq!(r.depth(), 1);
    r.end_skippable().unwrap();
    assert_eq!(r.depth(), 0);
    assert_eq!(r.read_u8().unwrap(), 9);
}

#[test]
fn skip_read_refuses_to_read_beyond_a_block() {
    let mut r = SkipRead::new(SliceSource::new(vec![0x01, 1, 9]));
    r.start_skippable();
    assert!(matches!(r.read(2), Err(Error::EndOfBlock)));

    let mut r = SkipRead::new(SliceSource::new(vec![0x01, 1, 9]));
    r.start_skippable();
    assert_eq!(r.read(1).unwrap(), vec![1]);
    assert!(r.block_exhausted().unwrap());
    assert!(matches!(r.read_u8(), Err(Error::EndOfBlock)));
}

#[test]
fn skip_read_pops_to_a_depth() {
    let mut r = SkipRead::new(SliceSource::new(vec![0x04, 0x02, 5, 6, 7, 8]));
    let depth = r.depth();
    r.start_skippable();
    r.start_skippable();
    assert_eq!(r.read_u8().unwrap(), 5);
    r.pop_to(depth).unwrap();
    assert_eq!(r.depth(), 0);
    assert_eq!(r.read_u8().unwrap(), 8);
}

#[test]
fn skip_read_remembers_a_failed_source() {
    let mut r = SkipRead::new(SliceSource::new(vec![0x05, 1]));
    r.start_skippable();
    assert_eq!(r.read_u8().unwrap(), 1);
    assert!(matches!(r.read(4), Err(Error::Io(_))));
    assert!(matches!(r.pop_to(0), Err(Error::Io(_))));
}

#[test]
fn skip_read_reads_the_rest_of_a_block() {
    let mut r = SkipRead::new_value(SliceSource::new(vec![1, 2, 3, 4]), 3);
    assert_eq!(r.read_u8().unwrap(), 1);
    assert_eq!(r.read_rest().unwrap(), vec![2, 3]);
    assert!(r.block_exhausted().unwrap());
    let mut r = SkipRead::new(SliceSource::new(vec![0x00]));
    r.start_empty_block();
    assert!(r.block_exhausted().unwrap());
    r.end_skippable().unwrap();
    assert_eq!(r.read_u8().unwrap(), 0);
}

#[test]
fn skip_read_reading_nothing_reaches_the_blocks_below() {
    // An outer block whose first chunk is full, so that another follows,
    // holds the length of an inner block and as much of it as fits.
    let mut bytes = vec![0xff, 0xff, 0x03, 0xfe, 0xff, 0x03];
    bytes.extend(std::iter::repeat(7u8).take(65532));
    let mut r = SkipRead::new(SliceSource::new(bytes.clone()));
    r.start_skippable();
    r.start_skippable();
    assert_eq!(r.read(65532).unwrap().len(), 65532);
    // The length of the outer block's next chunk is missing: even a read of
    // nothing from the inner block fails.
    assert!(matches!(r.read(0), Err(Error::Io(_))));

    // With that chunk there, a read of nothing succeeds and takes nothing.
    bytes.extend([0x02, 8, 9]);
    let mut r = SkipRead::new(SliceSource::new(bytes));
    r.start_skippable();
    r.start_skippable();
    assert_eq!(r.read(65532).unwrap().len(), 65532);
    assert_eq!(r.read(0).unwrap(), Vec::<u8>::new());
    assert_eq!(r.read(2).unwrap(), vec![8, 9]);
}

#[test]
fn an_ended_block_asks_nothing_of_the_source() {
    let mut r = SkipRead::new_value(SliceSource::new(vec![1, 2]), 0);
    assert!(r.block_exhausted().unwrap());
    assert!(matches!(r.read_u8(), Err(Error::EndOfBlock)));
    assert!(matches!(r.read(2), Err(Error::EndOfBlock)));
    assert_eq!(r.into_inner().position(), 0);

    // A variant whose flag says that no payload block follows gets an empty
    // one: its payload is not taken from what follows.
    let mut de = full_reader(&[0x42, 0x05]);
    let (_, block, owns) = de.read_variant().unwrap();
    assert!(!block);
    let variant = de.open_variant(owns, block);
    assert!(matches!(de.deserialize_u8(), Err(Error::EndOfBlock)));
    variant.finish(&mut de).unwrap();
    assert_eq!(de.deserialize_u8().unwrap(), 5);
}

#[test]
fn closing_nothing_succeeds_and_a_failed_source_stays_failed() {
    let mut r = SkipRead::new(SliceSource::new(vec![]));
    let depth = r.depth();
    assert!(r.pop_to(depth).is_ok());
    r.start_skippable();
    assert!(matches!(r.read_u8(), Err(Error::Io(_))));
    assert!(matches!(r.pop_to(0), Err(Error::Io(_))));
    assert_eq!(r.depth(), 1);
}
