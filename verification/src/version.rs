//! The HTTP version pair `(major, minor)`.

use vstd::prelude::*;

use core::cmp::Ordering;

use crate::ascii::{find_byte, spec_find_byte, SLASH};
use crate::errors::VersionError;

verus! {

/// An HTTP protocol version, ordered lexicographically on (major, minor).
#[derive(Debug, PartialEq, Eq, Structural, Clone, Copy)]
pub struct HttpVersion(pub u8, pub u8);

/// The version literals that `from_bytes` recognizes, as `HTTP/<major>.<minor>`
/// version parts.
pub open spec fn spec_version_from_bytes(s: Seq<u8>) -> Result<HttpVersion, VersionError> {
    if s == seq![49u8, 46u8, 48u8] {
        Ok(HttpVersion(1, 0))
    } else if s == seq![49u8, 46u8, 49u8] {
        Ok(HttpVersion(1, 1))
    } else if s == seq![50u8, 46u8, 48u8] {
        Ok(HttpVersion(2, 0))
    } else if s == seq![51u8, 46u8, 48u8] {
        Ok(HttpVersion(3, 0))
    } else {
        Err(VersionError::InvalidHTTPVersion)
    }
}

impl HttpVersion {
    /// Parses the `<major>.<minor>` part of a version literal. Only the
    /// literals `1.0`, `1.1`, `2.0` and `3.0` are recognized.
    pub fn from_bytes(bytes: &[u8]) -> (r: Result<Self, VersionError>)
        ensures
            r == spec_version_from_bytes(bytes@),
    {
        if bytes.len() == 3 && bytes[1] == 46u8 {
            let maj = bytes[0];
            let min = bytes[2];
            proof {
                assert(bytes@ =~= seq![bytes@[0], bytes@[1], bytes@[2]]);
            }
            if maj == 49 && min == 48 {
                Ok(HttpVersion(1, 0))
            } else if maj == 49 && min == 49 {
                Ok(HttpVersion(1, 1))
            } else if maj == 50 && min == 48 {
                Ok(HttpVersion(2, 0))
            } else if maj == 51 && min == 48 {
                Ok(HttpVersion(3, 0))
            } else {
                Err(VersionError::InvalidHTTPVersion)
            }
        } else {
            Err(VersionError::InvalidHTTPVersion)
        }
    }

    /// Builds a version from its two components.
    pub fn new(major: u8, minor: u8) -> (r: Self)
        ensures
            r == HttpVersion(major, minor),
    {
        HttpVersion(major, minor)
    }
}

/// The lexicographic order on (major, minor).
pub open spec fn spec_version_cmp(a: HttpVersion, b: HttpVersion) -> Ordering {
    if a.0 < b.0 {
        Ordering::Less
    } else if a.0 > b.0 {
        Ordering::Greater
    } else if a.1 < b.1 {
        Ordering::Less
    } else if a.1 > b.1 {
        Ordering::Greater
    } else {
        Ordering::Equal
    }
}

impl vstd::std_specs::cmp::PartialOrdSpecImpl for HttpVersion {
    open spec fn obeys_partial_cmp_spec() -> bool {
        true
    }

    open spec fn partial_cmp_spec(&self, other: &HttpVersion) -> Option<Ordering> {
        Some(spec_version_cmp(*self, *other))
    }
}

impl PartialOrd for HttpVersion {
    /// Versions compare lexicographically on (major, minor).
    fn partial_cmp(&self, other: &HttpVersion) -> (r: Option<Ordering>)
        ensures
            r == Some(spec_version_cmp(*self, *other)),
    {
        if self.0 < other.0 {
            Some(Ordering::Less)
        } else if self.0 > other.0 {
            Some(Ordering::Greater)
        } else if self.1 < other.1 {
            Some(Ordering::Less)
        } else if self.1 > other.1 {
            Some(Ordering::Greater)
        } else {
            Some(Ordering::Equal)
        }
    }
}

impl Default for HttpVersion {
    /// The default version is `1.1`.
    fn default() -> (r: Self)
        ensures
            r == HttpVersion(1, 1),
    {
        HttpVersion(1, 1)
    }
}

/// The bytes of the `HTTP` literal that opens a version token.
pub open spec fn spec_http_literal() -> Seq<u8> {
    seq![72u8, 84, 84, 80]
}

/// The wire form of a version token: `HTTP/<major>.<minor>` in decimal.
pub open spec fn spec_version_bytes(v: HttpVersion) -> Seq<u8> {
    spec_http_literal() + seq![SLASH] + crate::numbers::spec_dec_bytes(v.0 as nat) + seq![46u8]
        + crate::numbers::spec_dec_bytes(v.1 as nat)
}

/// What splitting a version token yields: `None` when the shape is not
/// `HTTP/<rest>` with exactly one slash; otherwise what `from_bytes` makes
/// of the rest.
pub open spec fn spec_parse_version_part(v: Seq<u8>) -> Option<Result<HttpVersion, VersionError>> {
    if spec_find_byte(v, SLASH) == Some(4int) && v.take(4) == spec_http_literal()
        && spec_find_byte(v.skip(5), SLASH) == None::<int> {
        Some(spec_version_from_bytes(v.skip(5)))
    } else {
        None
    }
}

/// Splits a version token on its slash and parses what follows. `None`
/// means the token is not of the form `HTTP/<rest>`.
pub fn parse_version_part(v: &[u8]) -> (r: Option<Result<HttpVersion, VersionError>>)
    ensures
        r == spec_parse_version_part(v@),
{
    let n = v.len();
    let k = match find_byte(v, SLASH) {
        Some(k) => k,
        None => {
            return None;
        },
    };
    if k != 4 {
        return None;
    }
    if !(v[0] == 72 && v[1] == 84 && v[2] == 84 && v[3] == 80) {
        proof {
            assert(v@.take(4) != spec_http_literal());
        }
        return None;
    }
    proof {
        assert(v@.take(4) =~= spec_http_literal());
    }
    let suffix = &v[5..n];
    if find_byte(suffix, SLASH).is_some() {
        proof {
            assert(suffix@ =~= v@.skip(5));
        }
        return None;
    }
    proof {
        assert(suffix@ =~= v@.skip(5));
    }
    Some(HttpVersion::from_bytes(suffix))
}

/// The versions whose wire form `from_bytes` recognizes.
pub open spec fn spec_version_recognized(v: HttpVersion) -> bool {
    ||| v == HttpVersion(1, 0)
    ||| v == HttpVersion(1, 1)
    ||| v == HttpVersion(2, 0)
    ||| v == HttpVersion(3, 0)
}

/// A recognized version's wire form parses back to it, and holds neither
/// space nor CR nor LF.
pub proof fn lemma_version_bytes_roundtrip(v: HttpVersion)
    requires
        spec_version_recognized(v),
    ensures
        spec_parse_version_part(spec_version_bytes(v)) == Some(
            Ok::<HttpVersion, VersionError>(v),
        ),
        spec_version_bytes(v).len() == 8,
        forall|j: int| 0 <= j < spec_version_bytes(v).len() ==> (#[trigger] spec_version_bytes(
            v,
        )[j]) != 32 && spec_version_bytes(v)[j] != 13 && spec_version_bytes(v)[j] != 10,
{
    let s = spec_version_bytes(v);
    let maj = crate::numbers::spec_dec_bytes(v.0 as nat);
    let min = crate::numbers::spec_dec_bytes(v.1 as nat);
    assert(maj =~= seq![(48 + v.0) as u8]);
    assert(min =~= seq![(48 + v.1) as u8]);
    assert(s =~= seq![72u8, 84, 84, 80, 47, (48 + v.0) as u8, 46, (48 + v.1) as u8]);
    assert forall|j: int| 0 <= j < s.len() implies s[j] != 32 && s[j] != 13 && s[j] != 10 by {
        assert(s[0] == 72 && s[1] == 84 && s[2] == 84 && s[3] == 80 && s[4] == 47 && s[5] == 48
            + v.0 && s[6] == 46 && s[7] == 48 + v.1);
    }
    let head = spec_http_literal();
    let rest = seq![47u8, (48 + v.0) as u8, 46, (48 + v.1) as u8];
    assert(s =~= head + rest);
    assert forall|j: int| 0 <= j < head.len() implies head[j] != SLASH by {
        assert(head[0] == 72 && head[1] == 84 && head[2] == 84 && head[3] == 80);
    }
    assert(rest[0] == SLASH);
    crate::ascii::lemma_find_byte_boundary(head, rest, SLASH);
    assert(spec_find_byte(s, SLASH) == Some(4int));
    assert(s.take(4) =~= head);
    let suffix = s.skip(5);
    assert(suffix =~= seq![(48 + v.0) as u8, 46u8, (48 + v.1) as u8]);
    assert forall|j: int| 0 <= j < suffix.len() implies suffix[j] != SLASH by {
        assert(suffix[0] == 48 + v.0 && suffix[1] == 46 && suffix[2] == 48 + v.1);
    }
    crate::ascii::lemma_find_byte_none(suffix, SLASH);
    assert(spec_version_from_bytes(suffix) == Ok::<HttpVersion, VersionError>(v)) by {
        if v == HttpVersion(1, 0) {
            assert(suffix =~= seq![49u8, 46u8, 48u8]);
        } else if v == HttpVersion(1, 1) {
            assert(suffix =~= seq![49u8, 46u8, 49u8]);
            assert(suffix != seq![49u8, 46u8, 48u8]);
        } else if v == HttpVersion(2, 0) {
            assert(suffix =~= seq![50u8, 46u8, 48u8]);
            assert(suffix != seq![49u8, 46u8, 48u8]);
            assert(suffix != seq![49u8, 46u8, 49u8]);
        } else {
            assert(suffix =~= seq![51u8, 46u8, 48u8]);
            assert(suffix != seq![49u8, 46u8, 48u8]);
            assert(suffix != seq![49u8, 46u8, 49u8]);
            assert(suffix != seq![50u8, 46u8, 48u8]);
        }
    }
}

} // verus!
