//! The full version identifier: an optional interpreter name in front
//! of an optional numeric version (`ruby-3.2.0-preview2`). Parsing,
//! rendering and a total order that compares the interpreter first.

use vstd::prelude::*;

use crate::text::{
    find_ch, find_char, is_digit, lemma_find_ch, lemma_seq_lt_order, lemma_seq_lt_trans, seq_lt,
    str_lt,
};
use crate::version::{
    lemma_version_lt_order, lemma_version_lt_trans, opt_label_lt, parse_version, render_version,
    str_eq, version_lt, Version, VersionV,
};

verus! {

/// Mathematical model of a full identifier.
pub struct VersionIdV {
    pub interpreter: Option<Seq<char>>,
    pub version: Option<VersionV>,
}

/// A parsed version identifier: optional interpreter name plus optional
/// numeric version. Used both as a catalog key and as a user query,
/// whose absent fields are wildcards.
#[derive(Debug)]
pub struct VersionId {
    pub interpreter: Option<String>,
    pub version: Option<Version>,
}

impl View for VersionId {
    type V = VersionIdV;

    open spec fn view(&self) -> VersionIdV {
        VersionIdV {
            interpreter: match self.interpreter {
                Some(i) => Some(i@),
                None => None,
            },
            version: match self.version {
                Some(v) => Some(v@),
                None => None,
            },
        }
    }
}

/// Meaning of an identifier string. The empty string is the all-absent
/// identifier. A string whose first character is a digit is a bare
/// numeric version. Anything else starts with an interpreter name that
/// runs to the first `-`; a numeric version may follow that `-`.
pub open spec fn parse_version_id(s: Seq<char>) -> Option<VersionIdV> {
    if s.len() == 0 {
        Some(VersionIdV { interpreter: None, version: None })
    } else if is_digit(s[0]) {
        match parse_version(s) {
            None => None,
            Some(v) => Some(VersionIdV { interpreter: None, version: Some(v) }),
        }
    } else {
        match find_ch(s, '-') {
            None => Some(VersionIdV { interpreter: Some(s), version: None }),
            Some(i) => match parse_version(s.skip(i + 1)) {
                None => None,
                Some(v) => Some(VersionIdV { interpreter: Some(s.take(i)), version: Some(v) }),
            },
        }
    }
}

/// Text of an identifier: the present parts, interpreter first, joined
/// by `-`.
pub open spec fn render_version_id(v: VersionIdV) -> Seq<char> {
    match (v.interpreter, v.version) {
        (None, None) => Seq::<char>::empty(),
        (Some(i), None) => i,
        (None, Some(ver)) => render_version(ver),
        (Some(i), Some(ver)) => i + seq!['-'] + render_version(ver),
    }
}

/// Order on the optional numeric version: absent before present,
/// present versions by the version order.
pub open spec fn opt_version_lt(a: Option<VersionV>, b: Option<VersionV>) -> bool {
    match (a, b) {
        (None, Some(_)) => true,
        (Some(x), Some(y)) => version_lt(x, y),
        _ => false,
    }
}

/// Strict order on identifiers: by interpreter first (absent before
/// present, present names lexicographically), then by the numeric
/// version.
pub open spec fn version_id_lt(a: VersionIdV, b: VersionIdV) -> bool {
    if a.interpreter == b.interpreter {
        opt_version_lt(a.version, b.version)
    } else {
        opt_label_lt(a.interpreter, b.interpreter)
    }
}

/// The interpreter name forced onto identifiers parsed from release
/// asset names: the release source publishes one interpreter only.
pub open spec fn ruby_name() -> Seq<char> {
    seq!['r', 'u', 'b', 'y']
}

impl VersionId {
    /// An identifier with every field present.
    pub fn interpreter_and_label(
        interpreter: &str,
        major: u8,
        minor: u8,
        patch: u8,
        label: &str,
    ) -> (r: VersionId)
        ensures
            r@ == (VersionIdV {
                interpreter: Some(interpreter@),
                version: Some(
                    VersionV {
                        major: Some(major),
                        minor: Some(minor),
                        patch: Some(patch),
                        label: Some(label@),
                    },
                ),
            }),
    {
        VersionId {
            interpreter: Some(interpreter.to_owned()),
            version: Some(Version::label(major, minor, patch, label)),
        }
    }

    /// An identifier holding only an interpreter name.
    pub fn interpreter(interpreter: &str) -> (r: VersionId)
        ensures
            r@ == (VersionIdV { interpreter: Some(interpreter@), version: None }),
    {
        VersionId { interpreter: Some(interpreter.to_owned()), version: None }
    }

    /// An identifier with a full numeric version and no interpreter.
    pub fn label(major: u8, minor: u8, patch: u8, label: &str) -> (r: VersionId)
        ensures
            r@ == (VersionIdV {
                interpreter: None,
                version: Some(
                    VersionV {
                        major: Some(major),
                        minor: Some(minor),
                        patch: Some(patch),
                        label: Some(label@),
                    },
                ),
            }),
    {
        VersionId { interpreter: None, version: Some(Version::label(major, minor, patch, label)) }
    }

    /// An identifier with major, minor and patch and no interpreter.
    pub fn patch(major: u8, minor: u8, patch: u8) -> (r: VersionId)
        ensures
            r@ == (VersionIdV {
                interpreter: None,
                version: Some(
                    VersionV {
                        major: Some(major),
                        minor: Some(minor),
                        patch: Some(patch),
                        label: None,
                    },
                ),
            }),
    {
        VersionId { interpreter: None, version: Some(Version::patch(major, minor, patch)) }
    }

    /// An identifier with major and minor and no interpreter.
    pub fn minor(major: u8, minor: u8) -> (r: VersionId)
        ensures
            r@ == (VersionIdV {
                interpreter: None,
                version: Some(
                    VersionV { major: Some(major), minor: Some(minor), patch: None, label: None },
                ),
            }),
    {
        VersionId { interpreter: None, version: Some(Version::minor(major, minor)) }
    }

    /// An identifier with only a major version.
    pub fn major(major: u8) -> (r: VersionId)
        ensures
            r@ == (VersionIdV {
                interpreter: None,
                version: Some(
                    VersionV { major: Some(major), minor: None, patch: None, label: None },
                ),
            }),
    {
        VersionId { interpreter: None, version: Some(Version::major(major)) }
    }

    /// The all-absent identifier.
    pub fn empty() -> (r: VersionId)
        ensures
            r@ == (VersionIdV { interpreter: None, version: None }),
    {
        VersionId { interpreter: None, version: None }
    }

    /// Parse an identifier string; `Err` exactly on the inputs the
    /// grammar rejects.
    pub fn from_string(string: &str) -> (r: Result<VersionId, ()>)
        ensures
            match parse_version_id(string@) {
                Some(v) => (r matches Ok(id) && id@ == v),
                None => r is Err,
            },
    {
        let n = string.unicode_len();
        if n == 0 {
            return Ok(VersionId::empty());
        }
        let c0 = string.get_char(0) as u32;
        if 48 <= c0 && c0 <= 57 {
            assert(is_digit(string@[0]));
            match Version::from_string(string) {
                Ok(v) => Ok(VersionId { interpreter: None, version: Some(v) }),
                Err(e) => Err(e),
            }
        } else {
            assert(!is_digit(string@[0]));
            let ghost sv = string@;
            match find_char(string, '-') {
                None => Ok(
                    VersionId { interpreter: Some(string.to_owned()), version: None },
                ),
                Some(i) => {
                    proof {
                        lemma_find_ch(sv, '-');
                    }
                    let name = string.substring_char(0, i);
                    let rest = string.substring_char(i + 1, n);
                    proof {
                        assert(name@ =~= sv.take(i as int));
                        assert(rest@ =~= sv.skip(i + 1));
                    }
                    match Version::from_string(rest) {
                        Ok(v) => Ok(
                            VersionId { interpreter: Some(name.to_owned()), version: Some(v) },
                        ),
                        Err(e) => Err(e),
                    }
                },
            }
        }
    }

    /// Parse the identifier out of a release asset name of the shape
    /// `<prefix>-<version>-<platform>.7z`; the interpreter is always the
    /// one the release source publishes.
    pub fn from_github_asset_name(asset_name: &str) -> (r: Result<VersionId, ()>)
        ensures
            match crate::version::parse_asset_version(asset_name@) {
                Some(v) => (r matches Ok(id) && id@ == (VersionIdV {
                    interpreter: Some(ruby_name()),
                    version: Some(v),
                })),
                None => r is Err,
            },
    {
        let version = match Version::from_github_asset_name(asset_name) {
            Ok(v) => v,
            Err(e) => {
                return Err(e);
            },
        };
        let name = "ruby".to_owned();
        proof {
            reveal_strlit("ruby");
            assert(name@ =~= ruby_name());
        }
        Ok(VersionId { interpreter: Some(name), version: Some(version) })
    }

    /// Does this identifier order strictly before `other`?
    pub fn lt(&self, other: &VersionId) -> (r: bool)
        ensures
            r == version_id_lt(self@, other@),
    {
        let interp_eq = match (&self.interpreter, &other.interpreter) {
            (Some(x), Some(y)) => str_eq(x.as_str(), y.as_str()),
            (None, None) => true,
            _ => false,
        };
        if interp_eq {
            match (&self.version, &other.version) {
                (None, Some(_)) => true,
                (Some(x), Some(y)) => x.lt(y),
                _ => false,
            }
        } else {
            match (&self.interpreter, &other.interpreter) {
                (None, Some(_)) => true,
                (Some(x), Some(y)) => str_lt(x.as_str(), y.as_str()),
                _ => false,
            }
        }
    }

    /// The identifier's text: the present parts joined by `-`.
    pub fn render(&self) -> (r: String)
        ensures
            r@ == render_version_id(self@),
    {
        proof {
            reveal_strlit("-");
        }
        match (&self.interpreter, &self.version) {
            (None, None) => String::new(),
            (Some(i), None) => i.clone(),
            (None, Some(v)) => v.render(),
            (Some(i), Some(v)) => {
                let mut s = i.clone();
                s.append("-");
                let vs = v.render();
                s.append(vs.as_str());
                proof {
                    assert("-"@ =~= seq!['-']);
                    assert(s@ =~= render_version_id(self@));
                }
                s
            },
        }
    }
}

/// The identifier order is a strict total order, part one: it is
/// asymmetric and connected, so of two distinct identifiers exactly one
/// orders before the other; an absent interpreter or version orders
/// before any present one.
pub proof fn lemma_version_id_lt_order(a: VersionIdV, b: VersionIdV)
    ensures
        !(version_id_lt(a, b) && version_id_lt(b, a)),
        version_id_lt(a, b) || version_id_lt(b, a) || a == b,
{
    if a.interpreter == b.interpreter {
        match (a.version, b.version) {
            (Some(x), Some(y)) => {
                lemma_version_lt_order(x, y);
            },
            _ => {},
        }
    } else {
        match (a.interpreter, b.interpreter) {
            (Some(x), Some(y)) => {
                lemma_seq_lt_order(x, y);
            },
            _ => {},
        }
    }
}

/// The identifier order is a strict total order, part two: it is
/// transitive.
pub proof fn lemma_version_id_lt_trans(a: VersionIdV, b: VersionIdV, c: VersionIdV)
    requires
        version_id_lt(a, b),
        version_id_lt(b, c),
    ensures
        version_id_lt(a, c),
{
    match (a.version, b.version, c.version) {
        (Some(x), Some(y), Some(z)) => {
            if version_lt(x, y) && version_lt(y, z) {
                lemma_version_lt_trans(x, y, z);
            }
        },
        _ => {},
    }
    match (a.interpreter, b.interpreter, c.interpreter) {
        (Some(x), Some(y), Some(z)) => {
            if seq_lt(x, y) && seq_lt(y, z) {
                lemma_seq_lt_trans(x, y, z);
                lemma_seq_lt_order(x, y);
            }
        },
        _ => {},
    }
}

} // verus!
