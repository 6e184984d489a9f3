//! Configuration of the serialization data format.

use vstd::prelude::*;
use vstd::std_specs::convert::{FromSpecImpl, TryFromSpecImpl};
use vstd::std_specs::cmp::{PartialOrdSpec, PartialOrdSpecImpl};
use core::cmp::Ordering;

verus! {

/// Default limit for the nesting depth of serialized and deserialized data.
///
/// Serialization and deserialization of nested data is recursive, so deeply
/// nested data consumes stack space. Data nested deeper than this fails with
/// [`Error::RecursionLimit`](crate::error::Error::RecursionLimit).
///
/// Use [`Cfg::with_depth_limit`] to specify a different limit.
pub const DEFAULT_DEPTH_LIMIT: usize = 128;

/// Version of the data format.
///
/// Both serializer and deserializer must use the same version.
#[derive(Clone, Copy, PartialEq, Eq, Structural, Ord, Hash, Debug, Default)]
#[non_exhaustive]
pub enum Version {
    /// The format of version 0.4 and earlier.
    ///
    /// Only use for backwards compatibility.
    Postbag0_4,
    /// The format of version 1.0.
    ///
    /// This is the default.
    #[default]
    Postbag1,
}

/// The byte identifying a version.
pub open spec fn version_byte(version: Version) -> u8 {
    match version {
        Version::Postbag0_4 => 0,
        Version::Postbag1 => 1,
    }
}

impl Version {
    /// Whether this is the format of version 0.4 and earlier.
    pub fn is_0_4(self) -> (r: bool)
        ensures
            r == (self == Version::Postbag0_4),
    {
        match self {
            Version::Postbag0_4 => true,
            Version::Postbag1 => false,
        }
    }

    /// The byte identifying this version.
    pub fn as_u8(self) -> (r: u8)
        ensures
            r == version_byte(self),
    {
        match self {
            Version::Postbag0_4 => 0,
            Version::Postbag1 => 1,
        }
    }
}

/// Versions are ordered as the bytes identifying them are: the format of
/// version 0.4 comes before that of version 1.0.
impl PartialOrd for Version {
    fn partial_cmp(&self, other: &Version) -> (r: Option<Ordering>) {
        let a = self.as_u8();
        let b = other.as_u8();
        if a < b {
            Some(Ordering::Less)
        } else if a == b {
            Some(Ordering::Equal)
        } else {
            Some(Ordering::Greater)
        }
    }
}

impl PartialOrdSpecImpl for Version {
    open spec fn obeys_partial_cmp_spec() -> bool {
        true
    }

    open spec fn partial_cmp_spec(&self, other: &Version) -> Option<Ordering> {
        if version_byte(*self) < version_byte(*other) {
            Some(Ordering::Less)
        } else if version_byte(*self) == version_byte(*other) {
            Some(Ordering::Equal)
        } else {
            Some(Ordering::Greater)
        }
    }
}

/// Identifies the version by a byte.
impl From<Version> for u8 {
    fn from(version: Version) -> (r: u8) {
        version.as_u8()
    }
}

impl FromSpecImpl<Version> for u8 {
    open spec fn obeys_from_spec() -> bool {
        true
    }

    open spec fn from_spec(version: Version) -> u8 {
        version_byte(version)
    }
}

/// A byte that identifies no [`Version`] this build knows.
#[derive(Clone, Copy, PartialEq, Eq, Structural, PartialOrd, Ord, Hash, Debug)]
pub struct UnknownVersion(pub u8);

/// The character of the decimal digit `d`.
pub open spec fn digit_char(d: nat) -> char {
    (48 + d) as char
}

/// The decimal digits of `n`, most significant first.
pub open spec fn decimal(n: nat) -> Seq<char>
    decreases n,
{
    if n < 10 {
        seq![digit_char(n)]
    } else {
        decimal(n / 10).push(digit_char(n % 10))
    }
}

/// The one-character string of the decimal digit `d`.
fn digit_str(d: u8) -> (r: &'static str)
    requires
        d < 10,
    ensures
        r@ == seq![digit_char(d as nat)],
{
    proof {
        reveal_strlit("0");
        reveal_strlit("1");
        reveal_strlit("2");
        reveal_strlit("3");
        reveal_strlit("4");
        reveal_strlit("5");
        reveal_strlit("6");
        reveal_strlit("7");
        reveal_strlit("8");
        reveal_strlit("9");
    }
    match d {
        0 => "0",
        1 => "1",
        2 => "2",
        3 => "3",
        4 => "4",
        5 => "5",
        6 => "6",
        7 => "7",
        8 => "8",
        _ => "9",
    }
}

impl UnknownVersion {
    /// The message saying which byte names no version.
    pub fn message(&self) -> (r: String)
        ensures
            r@ == "unknown Postbag data format version "@ + decimal(self.0 as nat),
    {
        let mut s = String::from_str("unknown Postbag data format version ");
        let n = self.0;
        if n >= 100 {
            s.append(digit_str(n / 100));
        }
        if n >= 10 {
            s.append(digit_str((n / 10) % 10));
        }
        s.append(digit_str(n % 10));
        proof {
            let p = "unknown Postbag data format version "@;
            let n0 = n as nat;
            if n0 >= 100 {
                assert(decimal(n0 / 100) == seq![digit_char(n0 / 100)]);
                assert(decimal(n0 / 10) == decimal(n0 / 100).push(digit_char((n0 / 10) % 10)));
                assert((n0 / 10) / 10 == n0 / 100);
            } else if n0 >= 10 {
                assert(decimal(n0 / 10) == seq![digit_char(n0 / 10)]);
            }
            assert(s@ =~= p + decimal(n0));
        }
        s
    }
}

impl TryFrom<u8> for Version {
    type Error = UnknownVersion;

    fn try_from(value: u8) -> (r: Result<Self, Self::Error>) {
        match value {
            0 => Ok(Self::Postbag0_4),
            1 => Ok(Self::Postbag1),
            unknown => Err(UnknownVersion(unknown)),
        }
    }
}

impl TryFromSpecImpl<u8> for Version {
    open spec fn obeys_try_from_spec() -> bool {
        true
    }

    open spec fn try_from_spec(value: u8) -> Result<Self, UnknownVersion> {
        match version_of_byte(value) {
            Some(version) => Ok(version),
            None => Err(UnknownVersion(value)),
        }
    }
}

/// The version a byte identifies, if any.
pub open spec fn version_of_byte(value: u8) -> Option<Version> {
    if value == 0 {
        Some(Version::Postbag0_4)
    } else if value == 1 {
        Some(Version::Postbag1)
    } else {
        None
    }
}

/// Every version is identified by the byte it turns into.
pub proof fn version_byte_round_trip(version: Version)
    ensures
        version_of_byte(version_byte(version)) == Some(version),
{
}

/// The versions are ordered as their bytes are: version 0.4 comes before
/// version 1.0.
pub proof fn versions_order_with_their_bytes()
    ensures
        version_byte(Version::Postbag0_4) < version_byte(Version::Postbag1),
        PartialOrdSpec::partial_cmp_spec(&Version::Postbag0_4, &Version::Postbag1) == Some(
            Ordering::Less,
        ),
        PartialOrdSpec::partial_cmp_spec(&Version::Postbag1, &Version::Postbag0_4) == Some(
            Ordering::Greater,
        ),
{
}

/// What a configuration holds.
pub struct CfgView {
    /// The limit for the nesting depth.
    pub depth_limit: usize,
    /// The version of the data format.
    pub version: Version,
    /// Whether a header was asked for.
    pub header: bool,
    /// Whether leaving out a struct field was allowed.
    pub allow_skip: bool,
}

/// Configuration.
///
/// Whether identifiers are serialized is part of the type.
/// Use the type aliases [`Full`] and [`Slim`] to name a configuration.
#[derive(Clone, Copy, PartialEq, Eq, PartialOrd, Ord, Hash)]
pub struct Cfg<const WITH_IDENTS: bool> {
    depth_limit: usize,
    version: Version,
    header: bool,
    allow_skip: bool,
}

impl<const WITH_IDENTS: bool> View for Cfg<WITH_IDENTS> {
    type V = CfgView;

    closed spec fn view(&self) -> CfgView {
        CfgView {
            depth_limit: self.depth_limit,
            version: self.version,
            header: self.header,
            allow_skip: self.allow_skip,
        }
    }
}

/// Whether a configuration of this version, asking for a header or not, writes one.
pub open spec fn writes_header(v: CfgView) -> bool {
    v.header && v.version != Version::Postbag0_4
}

/// Whether a configuration may leave out struct fields.
pub open spec fn skips_fields(v: CfgView, with_idents: bool) -> bool {
    v.allow_skip && with_idents
}

/// The permission to leave out struct fields follows the setting: it is
/// never given where the setting forbids it, nor where no identifiers are
/// written; where identifiers are written and the setting allows it, it is.
pub proof fn skip_permission_follows_setting(v: CfgView, with_idents: bool)
    ensures
        skips_fields(v, with_idents) ==> v.allow_skip,
        !with_idents ==> !skips_fields(v, with_idents),
        with_idents ==> skips_fields((CfgView { allow_skip: true, ..v }), with_idents),
        !skips_fields((CfgView { allow_skip: false, ..v }), with_idents),
{
}

impl<const WITH_IDENTS: bool> Cfg<WITH_IDENTS> {
    /// Creates a new configuration using default values.
    pub fn new() -> (r: Self)
        ensures
            r@ == (CfgView {
                depth_limit: DEFAULT_DEPTH_LIMIT,
                version: Version::Postbag1,
                header: true,
                allow_skip: true,
            }),
    {
        Self { depth_limit: DEFAULT_DEPTH_LIMIT, version: Version::Postbag1, header: true, allow_skip: true }
    }

    /// Whether struct field identifiers and enum variant identifiers
    /// are serialized.
    pub fn with_idents(&self) -> (r: bool)
        ensures
            r == WITH_IDENTS,
    {
        WITH_IDENTS
    }

    /// Sets the limit for the nesting depth of serialized and deserialized data.
    pub fn with_depth_limit(self, depth_limit: usize) -> (r: Self)
        ensures
            r@ == (CfgView { depth_limit, ..self@ }),
    {
        Self { depth_limit, ..self }
    }

    /// Sets the version of the data format.
    ///
    /// Both ends must use the same version.
    pub fn with_version(self, version: Version) -> (r: Self)
        ensures
            r@ == (CfgView { version, ..self@ }),
    {
        Self { version, ..self }
    }

    /// Sets whether the data begins with a header stating the version of the
    /// data format and whether identifiers are serialized.
    ///
    /// Headers are always disabled for version 0.4.
    pub fn with_header(self, header: bool) -> (r: Self)
        ensures
            r@ == (CfgView { header, ..self@ }),
    {
        Self { header, ..self }
    }

    /// Sets whether the data being written may leave out a struct field.
    pub fn with_allow_skip(self, allow_skip: bool) -> (r: Self)
        ensures
            r@ == (CfgView { allow_skip, ..self@ }),
    {
        Self { allow_skip, ..self }
    }

    /// The limit for the nesting depth of serialized and deserialized data.
    pub fn depth_limit(&self) -> (r: usize)
        ensures
            r == self@.depth_limit,
    {
        self.depth_limit
    }

    /// Whether the data begins with a header stating the version of the data
    /// format and whether identifiers are serialized.
    pub fn header(&self) -> (r: bool)
        ensures
            r == writes_header(self@),
    {
        self.header && !self.version.is_0_4()
    }

    /// The header this configuration writes.
    pub fn header_bytes(&self) -> (r: [u8; 2])
        ensures
            r@ == crate::header::spec_header(self@.version, WITH_IDENTS),
    {
        crate::header::bytes(self.version, WITH_IDENTS)
    }

    /// Whether the data being written may leave out a struct field.
    ///
    /// Per default this is `true`, but always `false` under [`Slim`].
    pub fn allow_skip(&self) -> (r: bool)
        ensures
            r == skips_fields(self@, WITH_IDENTS),
    {
        self.allow_skip && WITH_IDENTS
    }

    /// The version of the data format.
    pub fn version(&self) -> (r: Version)
        ensures
            r == self@.version,
    {
        self.version
    }
}

impl<const WITH_IDENTS: bool> Default for Cfg<WITH_IDENTS> {
    fn default() -> (r: Self)
        ensures
            r@ == (CfgView {
                depth_limit: DEFAULT_DEPTH_LIMIT,
                version: Version::Postbag1,
                header: true,
                allow_skip: true,
            }),
    {
        Self::new()
    }
}

/// Serialize with identifiers.
pub type Full = Cfg<true>;

/// Serialize without identifiers.
pub type Slim = Cfg<false>;

} // verus!
