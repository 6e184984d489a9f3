use postbag::cfg::{Full, Slim, UnknownVersion, Version};
use postbag::compact::{self, Duration, SystemTime};
use postbag::error::Error;
use postbag::fixint::Fixint;
use postbag::header;
use postbag::info::{Direction, Info};
use postbag::recoverable::Recoverable;
use postbag::skip;
use postbag::skip::is_allowed;
use postbag::varfloat::{Varfloat, var_decode, var_encode};
use postbag::varint::{varint_u128, varint_u16, varint_u32, varint_u64};
use postbag::zigzag::{de_zig_zag_i32, de_zig_zag_i64, zig_zag_i16, zig_zag_i32, zig_zag_i64};

#[test]
fn varints_use_seven_bits_a_byte() {
    assert_eq!(varint_u16(0), vec![0x00]);
    assert_eq!(varint_u16(127), vec![0x7f]);
    assert_eq!(varint_u16(128), vec![0x80, 0x01]);
    assert_eq!(varint_u32(300), vec![0xac, 0x02]);
    assert_eq!(varint_u64(u64::MAX).len(), 10);
    assert_eq!(varint_u128(u128::MAX).len(), 19);
}

#[test]
fn zigzag_interleaves_signs() {
    assert_eq!(zig_zag_i16(0), 0);
    assert_eq!(zig_zag_i16(-1), 1);
    assert_eq!(zig_zag_i32(1), 2);
    assert_eq!(zig_zag_i32(-2), 3);
    assert_eq!(zig_zag_i64(i64::MIN), u64::MAX);
    assert_eq!(de_zig_zag_i32(3), -2);
    assert_eq!(de_zig_zag_i64(u64::MAX), i64::MIN);
}

#[test]
fn the_header_round_trips_and_says_what_it_holds() {
    let full = header::bytes(Version::Postbag1, true);
    let slim = header::bytes(Version::Postbag1, false);
    assert_eq!(full, [0xba, 0xb1]);
    assert_eq!(slim, [0xba, 0xa1]);
    assert_eq!(header::parse(full, true).unwrap(), Version::Postbag1);
    assert!(matches!(header::parse(full, false), Err(Error::WithIdentsMismatch(true))));
    assert!(matches!(header::parse(slim, true), Err(Error::WithIdentsMismatch(false))));
    assert!(matches!(header::parse([0xbb, 0xb1], true), Err(Error::BadHeader)));
    assert!(matches!(header::parse([0xba, 0x51], true), Err(Error::BadHeader)));
    for version in [0u8, 2, 7, 15] {
        let res = header::parse([0xba, 0xb0 | version], true);
        assert!(matches!(res, Err(Error::UnsupportedVersion(v)) if v == version), "{version}");
    }
}

#[test]
fn the_configuration_is_as_set() {
    let cfg = Full::new();
    assert_eq!(cfg.depth_limit(), 128);
    assert!(cfg.header());
    assert!(cfg.allow_skip());
    assert_eq!(cfg.version(), Version::Postbag1);
    assert!(!Slim::new().allow_skip());
    assert!(!cfg.with_version(Version::Postbag0_4).header());
    assert!(!cfg.with_version(Version::Postbag0_4).with_header(true).header());
    assert!(!cfg.with_header(false).header());
    assert_eq!(cfg.with_depth_limit(7).depth_limit(), 7);
    assert_eq!(cfg.header_bytes(), [0xba, 0xb1]);
    assert_eq!(u8::from(Version::Postbag0_4), 0);
    assert_eq!(Version::try_from(1u8).unwrap(), Version::Postbag1);
    assert!(Version::try_from(2u8).is_err());
}

#[test]
fn varfloat_leaves_out_zero_bytes_at_the_end() {
    assert_eq!(var_encode(1.0f32.to_bits() as u64, 4), vec![0x3f, 0x80]);
    assert_eq!(var_encode(0, 4), Vec::<u8>::new());
    assert_eq!(var_encode(1.5f64.to_bits(), 8), vec![0x3f, 0xf8]);
    assert_eq!(var_decode(&[0x3f, 0x80], 4), Some(1.0f32.to_bits() as u64));
    assert_eq!(var_decode(&[], 8), Some(0));
    assert_eq!(var_decode(&[0x3f, 0x00], 4), None);
    assert_eq!(var_decode(&[1, 2, 3, 4, 5], 4), None);
    let bits = 0.1f64.to_bits();
    assert_eq!(var_decode(&var_encode(bits, 8), 8), Some(bits));
    assert_eq!(Varfloat::new(2.5f32).into_inner(), 2.5);
}

#[test]
fn compact_durations_keep_nanoseconds_below_a_second() {
    assert_eq!(Duration::try_from((5, 999_999_999)).unwrap(), Duration(5, 999_999_999));
    assert!(Duration::try_from((5, 1_000_000_000)).is_err());
    let d = std::time::Duration::new(3, 7);
    let compact = Duration::from(d);
    assert_eq!(compact, Duration(3, 7));
    assert_eq!(compact.to_duration(), Some(d));
    assert_eq!(Duration(1, 1_000_000_000).to_duration(), None);
}

#[test]
fn compact_system_times_round_down_seconds() {
    assert_eq!(SystemTime::from_nanos(1_500_000_000), Some(SystemTime(1, 500_000_000)));
    assert_eq!(SystemTime::from_nanos(-1), Some(SystemTime(-1, 999_999_999)));
    assert_eq!(SystemTime::from_nanos(-1_000_000_000), Some(SystemTime(-1, 0)));
    assert_eq!(SystemTime::from_nanos(i128::MAX), None);
    assert!(SystemTime::try_from((0, 5)).is_ok());
    assert!(SystemTime::try_from((0, 1_000_000_000)).is_err());
}

#[test]
fn compact_system_times_convert_to_points_in_time() {
    let epoch = std::time::UNIX_EPOCH;
    let later = SystemTime(2, 250_000_000).checked_into().unwrap();
    assert_eq!(later, epoch + std::time::Duration::new(2, 250_000_000));
    // Before the epoch the seconds round down and the nanoseconds count up.
    let earlier = SystemTime(-1, 500_000_000).checked_into().unwrap();
    assert_eq!(earlier, epoch - std::time::Duration::from_millis(500));
    assert_eq!(SystemTime(0, 1_000_000_000).checked_into(), None);
}

#[test]
fn compact_results_and_ranges_convert_both_ways() {
    let ok: Result<u8, u8> = Ok(3);
    let compact: compact::Result<u8, u8> = ok.into();
    assert!(matches!(compact, compact::Result::Success(3)));
    let back: Result<u8, u8> = compact.into();
    assert_eq!(back, Ok(3));
    let err: compact::Result<u8, u8> = Err::<u8, u8>(4).into();
    assert!(matches!(err, compact::Result::Failure(4)));
    let range = compact::Range::from(1..4);
    assert_eq!(range, compact::Range(1, 4));
    assert_eq!(std::ops::Range::from(range), 1..4);
}

#[test]
fn skipping_is_allowed_only_where_the_writer_allows_it() {
    let full = Info::new(Direction::Serialize, &Full::new());
    let slim = Info::new(Direction::Serialize, &Slim::new());
    let reading = Info::new(Direction::Deserialize, &Slim::new());
    assert!(is_allowed(None));
    assert!(is_allowed(Some(full)));
    assert!(!is_allowed(Some(slim)));
    assert!(is_allowed(Some(reading)));
    assert!(skip::Vec::is_empty::<u8>(&[], Some(full)));
    assert!(!skip::Vec::is_empty::<u8>(&[], Some(slim)));
    assert!(!skip::Vec::is_empty(&[1u8], None));
    assert!(skip::String::is_empty("", None));
    assert!(!skip::String::is_empty("x", None));
    assert!(skip::Option::is_none::<u8>(&None, None));
    assert!(!skip::Option::is_none(&Some(1u8), None));
    assert!(skip::is_default(&0u32, None));
    assert!(!skip::is_default(&0u32, Some(slim)));
    assert!(!skip::is_default(&1u32, None));
    assert!(skip::HashMap::is_empty(&std::collections::HashMap::<u8, u8>::new(), None));
    assert!(skip::BTreeSet::is_empty(&std::collections::BTreeSet::<u8>::new(), None));
    assert!(!skip::VecDeque::is_empty(&std::collections::VecDeque::from(vec![1u8]), None));
}

#[test]
fn a_recoverable_value_knows_whether_it_was_recovered() {
    let r: Recoverable<u8, ()> = Recoverable::new(5);
    assert!(!Recoverable::is_recovered(&r));
    assert_eq!(*r.get(), 5);
    assert_eq!(Recoverable::into_inner(r), 5);
    let r: Recoverable<u8, ()> = Recoverable::recovered(0);
    assert!(Recoverable::is_recovered(&r));
    let r: Recoverable<u8, ()> = 7.into();
    assert_eq!(Recoverable::into_inner(r), 7);
}

#[test]
fn fixint_wraps_an_integer() {
    assert_eq!(Fixint::new(5u32).into_inner(), 5);
    let f: Fixint<i64> = (-3i64).into();
    assert_eq!(f.0, -3);
}

#[test]
fn versions_order_and_an_unknown_byte_is_named() {
    assert!(Version::Postbag0_4 < Version::Postbag1);
    assert_eq!(u8::from(Version::Postbag0_4), 0);
    assert_eq!(u8::from(Version::Postbag1), 1);
    assert_eq!(Version::try_from(1u8), Ok(Version::Postbag1));
    let unknown = Version::try_from(200u8).unwrap_err();
    assert_eq!(unknown, UnknownVersion(200));
    assert_eq!(unknown.message(), "unknown Postbag data format version 200");
    assert_eq!(UnknownVersion(7).message(), "unknown Postbag data format version 7");
    assert_eq!(UnknownVersion(42).message(), "unknown Postbag data format version 42");
}
