use postbag::cfg::Full;
use postbag::de::{Deserializer, SeqAccess, VariantId};
use postbag::id::{ID_COUNT, ident_number, numbered_ident};
use postbag::source::SliceSource;

fn full() -> Full {
    Full::new().with_header(false)
}

fn reader(bytes: &[u8]) -> Deserializer<SliceSource, true> {
    Deserializer::new(SliceSource::new(bytes.to_vec()), full())
}

#[test]
fn numbered_idents_agree() {
    // The writer derives the number from the name and the reader derives
    // the name from the number. They have to be the same mapping.
    for id in 0..ID_COUNT {
        let ident = numbered_ident(id).expect("every number below the count has a name");
        assert_eq!(ident, format!("_{id}"));
        assert_eq!(ident_number(&ident), Some(id));
    }

    assert_eq!(numbered_ident(ID_COUNT), None);
    assert_eq!(ident_number(&format!("_{ID_COUNT}")), None);
    assert_eq!(ident_number("name"), None);
    assert_eq!(ident_number("_"), None);
    assert_eq!(ident_number("_x"), None);
}

#[test]
fn only_the_canonical_form_is_numbered() {
    assert_eq!(ident_number("_0"), Some(0));
    assert_eq!(ident_number("_59"), Some(59));

    assert_eq!(ident_number("_00"), None);
    assert_eq!(ident_number("_07"), None);
    assert_eq!(ident_number("_007"), None);
    assert_eq!(ident_number("_+7"), None);
}

#[test]
fn a_block_that_is_not_there_is_refused() {
    // The tag claims a payload block and the input ends instead: reading the
    // enum `Shape` whose variant `_1` holds a `u8`.
    let mut de = reader(&[0xc2]);
    let res = (|| {
        let _saved = de.enter(false)?;
        let (id, block, owns) = de.read_variant()?;
        assert!(matches!(id, VariantId::Name(ref n) if n == "_1"));
        assert!(block);
        let _variant = de.open_variant(owns, block);
        de.deserialize_u8()
    })();
    assert!(res.is_err(), "got {res:?}");
}

#[test]
fn a_missing_end_is_refused() {
    // An announcement with nothing after it, and no end: reading `Vec<()>`.
    let truncated = [0x7du8, 0x00, 0x01, 0x01];
    let mut de = reader(&truncated);
    let res = (|| {
        let len = de.begin_seq()?;
        let _saved = de.enter(false)?;
        let mut elements = SeqAccess::new(len);
        while elements.has_next(&mut de)? {}
        de.end_seq(len)
    })();
    assert!(res.is_err());
}

#[test]
fn an_unfinished_element_is_refused() {
    // The element is announced but its varint never terminates: reading
    // `Vec<u32>`.
    let truncated = [0x7du8, 0x00, 0x03, 0x01, 0x80, 0x80];
    let mut de = reader(&truncated);
    let res = (|| {
        let len = de.begin_seq()?;
        let _saved = de.enter(false)?;
        let mut elements = SeqAccess::new(len);
        let mut values = Vec::new();
        while elements.has_next(&mut de)? {
            values.push(de.read_varint_u32()?);
        }
        de.end_seq(len)?;
        Ok::<_, postbag::error::Error>(values)
    })();
    assert!(res.is_err());
}
