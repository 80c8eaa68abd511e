//! The purely numeric `major.minor.patch-label` portion of a version
//! string: parsing, rendering, a componentwise total order, and the
//! specificity-aware inclusion predicate used for partial matching.

use vstd::prelude::*;

use crate::text::{
    lemma_dec_of_val, lemma_seq_lt_order, lemma_seq_lt_trans,
    dec_of, find_ch, find_char, is_digit, lemma_find_ch, parse_u8,
    parse_u8_exec, seq_lt, str_lt, append_u8,
};

verus! {

/// Mathematical model of a numeric version: each field is present or
/// absent, the label is a character sequence.
pub struct VersionV {
    pub major: Option<u8>,
    pub minor: Option<u8>,
    pub patch: Option<u8>,
    pub label: Option<Seq<char>>,
}

/// A parsed numeric version. Absent fields are wildcards when the value
/// is used as a query and "unspecified" when it names a release.
#[derive(Debug)]
pub struct Version {
    pub major: Option<u8>,
    pub minor: Option<u8>,
    pub patch: Option<u8>,
    pub label: Option<String>,
}

impl View for Version {
    type V = VersionV;

    open spec fn view(&self) -> VersionV {
        VersionV {
            major: self.major,
            minor: self.minor,
            patch: self.patch,
            label: match self.label {
                Some(l) => Some(l@),
                None => None,
            },
        }
    }
}

/// The numeric segments of the part before the first `-`, read
/// positionally: first segment is the major (absent only when that
/// segment is empty), second the minor, third the patch; later segments
/// are ignored. A present segment that is not a numeral in 0-255
/// rejects the whole input.
pub open spec fn parse_nums(np: Seq<char>) -> Option<(Option<u8>, Option<u8>, Option<u8>)> {
    let (s1, rest1) = match find_ch(np, '.') {
        None => (np, Option::<Seq<char>>::None),
        Some(i) => (np.take(i), Some(np.skip(i + 1))),
    };
    let major_r = if s1.len() == 0 {
        Some(Option::<u8>::None)
    } else {
        match parse_u8(s1) {
            Some(v) => Some(Option::<u8>::Some(v)),
            None => None,
        }
    };
    match major_r {
        None => None,
        Some(major) => match rest1 {
            None => Some((major, Option::<u8>::None, Option::<u8>::None)),
            Some(r1) => {
                let (s2, rest2) = match find_ch(r1, '.') {
                    None => (r1, Option::<Seq<char>>::None),
                    Some(j) => (r1.take(j), Some(r1.skip(j + 1))),
                };
                match parse_u8(s2) {
                    None => None,
                    Some(minor) => match rest2 {
                        None => Some((major, Some(minor), Option::<u8>::None)),
                        Some(r2) => {
                            let s3 = match find_ch(r2, '.') {
                                None => r2,
                                Some(k) => r2.take(k),
                            };
                            match parse_u8(s3) {
                                None => None,
                                Some(patch) => Some((major, Some(minor), Some(patch))),
                            }
                        },
                    },
                }
            },
        },
    }
}

/// Meaning of a numeric version string: the part before the first `-`
/// holds the dotted numerals, everything after it is the label,
/// verbatim. The empty string is the all-absent version, not an error.
pub open spec fn parse_version(s: Seq<char>) -> Option<VersionV> {
    let (np, label) = match find_ch(s, '-') {
        None => (s, Option::<Seq<char>>::None),
        Some(i) => (s.take(i), Some(s.skip(i + 1))),
    };
    match parse_nums(np) {
        None => None,
        Some(nums) => Some(VersionV { major: nums.0, minor: nums.1, patch: nums.2, label }),
    }
}

/// The numeric fields rendered with `.` between them, stopping at the
/// first absent field.
pub open spec fn render_nums(v: VersionV) -> Seq<char> {
    match v.major {
        None => Seq::<char>::empty(),
        Some(ma) => dec_of(ma as nat) + match v.minor {
            None => Seq::<char>::empty(),
            Some(mi) => seq!['.'] + dec_of(mi as nat) + match v.patch {
                None => Seq::<char>::empty(),
                Some(pa) => seq!['.'] + dec_of(pa as nat),
            },
        },
    }
}

/// Text of a numeric version: the dotted numerals, then `-label` when a
/// label is present.
pub open spec fn render_version(v: VersionV) -> Seq<char> {
    render_nums(v) + match v.label {
        None => Seq::<char>::empty(),
        Some(l) => seq!['-'] + l,
    }
}

/// Order on one optional numeric field: absent before any present value,
/// present values by their numbers.
pub open spec fn opt_u8_lt(a: Option<u8>, b: Option<u8>) -> bool {
    match (a, b) {
        (None, Some(_)) => true,
        (Some(x), Some(y)) => x < y,
        _ => false,
    }
}

/// Order on the optional label: absent before any present label, present
/// labels lexicographically.
pub open spec fn opt_label_lt(a: Option<Seq<char>>, b: Option<Seq<char>>) -> bool {
    match (a, b) {
        (None, Some(_)) => true,
        (Some(x), Some(y)) => seq_lt(x, y),
        _ => false,
    }
}

/// Strict order on numeric versions, most significant field first:
/// major, then minor, then patch, then label; at each field an absent
/// value orders before any present one.
pub open spec fn version_lt(a: VersionV, b: VersionV) -> bool {
    if a.major != b.major {
        opt_u8_lt(a.major, b.major)
    } else if a.minor != b.minor {
        opt_u8_lt(a.minor, b.minor)
    } else if a.patch != b.patch {
        opt_u8_lt(a.patch, b.patch)
    } else {
        opt_label_lt(a.label, b.label)
    }
}

/// The specificity-aware partial match: does candidate `c` satisfy the
/// possibly underspecified query `q`? An absent query major is a
/// wildcard that matches everything; each present query field must be
/// matched exactly by the candidate.
pub open spec fn version_includes(q: VersionV, c: VersionV) -> bool {
    q.major is None || (c.major == q.major && (q.minor is Some ==> c.minor == q.minor) && (
    q.patch is Some ==> c.patch == q.patch) && (q.label is Some ==> c.label == q.label))
}

/// Two strings hold the same characters.
pub fn str_eq(a: &str, b: &str) -> (r: bool)
    ensures
        r == (a@ == b@),
{
    let alen = a.unicode_len();
    let blen = b.unicode_len();
    if alen != blen {
        return false;
    }
    let mut i: usize = 0;
    while i < alen
        invariant
            0 <= i <= alen,
            alen == a@.len(),
            alen == b@.len(),
            forall|j: int| 0 <= j < i ==> a@[j] == b@[j],
        decreases alen - i,
    {
        if (a.get_char(i) as u32) != (b.get_char(i) as u32) {
            assert(a@[i as int] != b@[i as int]);
            return false;
        }
        i += 1;
    }
    proof {
        assert(a@ =~= b@);
    }
    true
}

/// The labels of `a` and `b` are equal, absence included.
fn opt_label_eq(a: &Option<String>, b: &Option<String>) -> (r: bool)
    ensures
        r == ((match a {
            Some(x) => Some(x@),
            None => None::<Seq<char>>,
        }) == (match b {
            Some(y) => Some(y@),
            None => None::<Seq<char>>,
        })),
{
    match (a, b) {
        (Some(x), Some(y)) => str_eq(x.as_str(), y.as_str()),
        (None, None) => true,
        _ => false,
    }
}

impl Version {
    /// A version with only the major field present.
    pub fn major(major: u8) -> (r: Version)
        ensures
            r@ == (VersionV { major: Some(major), minor: None, patch: None, label: None }),
    {
        Version { major: Some(major), minor: None, patch: None, label: None }
    }

    /// A version with major and minor present.
    pub fn minor(major: u8, minor: u8) -> (r: Version)
        ensures
            r@ == (VersionV { major: Some(major), minor: Some(minor), patch: None, label: None }),
    {
        Version { major: Some(major), minor: Some(minor), patch: None, label: None }
    }

    /// A version with major, minor and patch present.
    pub fn patch(major: u8, minor: u8, patch: u8) -> (r: Version)
        ensures
            r@ == (VersionV {
                major: Some(major),
                minor: Some(minor),
                patch: Some(patch),
                label: None,
            }),
    {
        Version { major: Some(major), minor: Some(minor), patch: Some(patch), label: None }
    }

    /// A version with every field present.
    pub fn label(major: u8, minor: u8, patch: u8, label: &str) -> (r: Version)
        ensures
            r@ == (VersionV {
                major: Some(major),
                minor: Some(minor),
                patch: Some(patch),
                label: Some(label@),
            }),
    {
        Version {
            major: Some(major),
            minor: Some(minor),
            patch: Some(patch),
            label: Some(label.to_owned()),
        }
    }

    /// The all-absent version.
    pub fn empty() -> (r: Version)
        ensures
            r@ == (VersionV { major: None, minor: None, patch: None, label: None }),
    {
        Version { major: None, minor: None, patch: None, label: None }
    }

    /// Parse a numeric version string; `Err` exactly on the inputs the
    /// grammar rejects.
    pub fn from_string(string: &str) -> (r: Result<Version, ()>)
        ensures
            match parse_version(string@) {
                Some(v) => (r matches Ok(ver) && ver@ == v),
                None => r is Err,
            },
    {
        let n = string.unicode_len();
        let ghost sv = string@;
        let (np, label): (&str, Option<String>) = match find_char(string, '-') {
            Some(i) => {
                proof {
                    lemma_find_ch(sv, '-');
                }
                let np = string.substring_char(0, i);
                let rest = string.substring_char(i + 1, n);
                proof {
                    assert(np@ =~= sv.take(i as int));
                    assert(rest@ =~= sv.skip(i + 1));
                }
                (np, Some(rest.to_owned()))
            },
            None => (string, None),
        };
        let ghost npv = np@;
        let m = np.unicode_len();
        let (seg1, rest1): (&str, Option<&str>) = match find_char(np, '.') {
            Some(i) => {
                proof {
                    lemma_find_ch(npv, '.');
                }
                let s1 = np.substring_char(0, i);
                let r1 = np.substring_char(i + 1, m);
                proof {
                    assert(s1@ =~= npv.take(i as int));
                    assert(r1@ =~= npv.skip(i + 1));
                }
                (s1, Some(r1))
            },
            None => (np, None),
        };
        let major: Option<u8> = if seg1.unicode_len() == 0 {
            None
        } else {
            match parse_u8_exec(seg1) {
                Some(v) => Some(v),
                None => {
                    return Err(());
                },
            }
        };
        let (minor, patch): (Option<u8>, Option<u8>) = match rest1 {
            None => (None, None),
            Some(r1) => {
                let ghost r1v = r1@;
                let k = r1.unicode_len();
                let (seg2, rest2): (&str, Option<&str>) = match find_char(r1, '.') {
                    Some(j) => {
                        proof {
                            lemma_find_ch(r1v, '.');
                        }
                        let s2 = r1.substring_char(0, j);
                        let r2 = r1.substring_char(j + 1, k);
                        proof {
                            assert(s2@ =~= r1v.take(j as int));
                            assert(r2@ =~= r1v.skip(j + 1));
                        }
                        (s2, Some(r2))
                    },
                    None => (r1, None),
                };
                let mi = match parse_u8_exec(seg2) {
                    Some(v) => v,
                    None => {
                        return Err(());
                    },
                };
                match rest2 {
                    None => (Some(mi), None),
                    Some(r2) => {
                        let ghost r2v = r2@;
                        let seg3: &str = match find_char(r2, '.') {
                            Some(kk) => {
                                proof {
                                    lemma_find_ch(r2v, '.');
                                }
                                let s3 = r2.substring_char(0, kk);
                                proof {
                                    assert(s3@ =~= r2v.take(kk as int));
                                }
                                s3
                            },
                            None => r2,
                        };
                        let pa = match parse_u8_exec(seg3) {
                            Some(v) => v,
                            None => {
                                return Err(());
                            },
                        };
                        (Some(mi), Some(pa))
                    },
                }
            },
        };
        Ok(Version { major, minor, patch, label })
    }

    /// Parse the version out of a release asset name of the shape
    /// `<prefix>-<version>-<platform>.7z`: the text between the first
    /// and second `-` is the version string.
    pub fn from_github_asset_name(asset_name: &str) -> (r: Result<Version, ()>)
        ensures
            match parse_asset_version(asset_name@) {
                Some(v) => (r matches Ok(ver) && ver@ == v),
                None => r is Err,
            },
    {
        let n = asset_name.unicode_len();
        let ghost av = asset_name@;
        match find_char(asset_name, '-') {
            None => Err(()),
            Some(i) => {
                proof {
                    lemma_find_ch(av, '-');
                }
                let rest = asset_name.substring_char(i + 1, n);
                let ghost restv = rest@;
                proof {
                    assert(restv =~= av.skip(i + 1));
                }
                let k = rest.unicode_len();
                let seg: &str = match find_char(rest, '-') {
                    None => rest,
                    Some(j) => {
                        proof {
                            lemma_find_ch(restv, '-');
                        }
                        let s = rest.substring_char(0, j);
                        proof {
                            assert(s@ =~= restv.take(j as int));
                        }
                        s
                    },
                };
                Version::from_string(seg)
            },
        }
    }

    /// Does `other` satisfy this version read as a query? Absent fields
    /// of the query are wildcards; its present fields must be matched
    /// exactly.
    pub fn includes(&self, other: &Version) -> (r: bool)
        ensures
            r == version_includes(self@, other@),
    {
        if self.major.is_none() {
            return true;
        }
        if self.major != other.major {
            return false;
        }
        if self.minor.is_some() && self.minor != other.minor {
            return false;
        }
        if self.patch.is_some() && self.patch != other.patch {
            return false;
        }
        if self.label.is_some() && !opt_label_eq(&self.label, &other.label) {
            return false;
        }
        true
    }

    /// Does this version order strictly before `other`?
    pub fn lt(&self, other: &Version) -> (r: bool)
        ensures
            r == version_lt(self@, other@),
    {
        if self.major != other.major {
            return match (self.major, other.major) {
                (None, Some(_)) => true,
                (Some(x), Some(y)) => x < y,
                _ => false,
            };
        }
        if self.minor != other.minor {
            return match (self.minor, other.minor) {
                (None, Some(_)) => true,
                (Some(x), Some(y)) => x < y,
                _ => false,
            };
        }
        if self.patch != other.patch {
            return match (self.patch, other.patch) {
                (None, Some(_)) => true,
                (Some(x), Some(y)) => x < y,
                _ => false,
            };
        }
        match (&self.label, &other.label) {
            (None, Some(_)) => true,
            (Some(x), Some(y)) => str_lt(x.as_str(), y.as_str()),
            _ => false,
        }
    }

    /// The version's text: present numeric fields joined by `.`, then
    /// `-label` when the label is present.
    pub fn render(&self) -> (r: String)
        ensures
            r@ == render_version(self@),
    {
        proof {
            reveal_strlit(".");
            reveal_strlit("-");
        }
        let mut s = String::new();
        match self.major {
            None => {},
            Some(ma) => {
                append_u8(&mut s, ma);
                match self.minor {
                    None => {},
                    Some(mi) => {
                        s.append(".");
                        append_u8(&mut s, mi);
                        match self.patch {
                            None => {},
                            Some(pa) => {
                                s.append(".");
                                append_u8(&mut s, pa);
                            },
                        }
                    },
                }
            },
        }
        proof {
            assert("."@ =~= seq!['.']);
            assert(s@ =~= render_nums(self@));
        }
        match &self.label {
            None => {},
            Some(l) => {
                s.append("-");
                s.append(l.as_str());
            },
        }
        proof {
            assert("-"@ =~= seq!['-']);
            assert(s@ =~= render_version(self@));
        }
        s
    }
}

/// The version order is a strict total order, part one: it is
/// asymmetric and connected, so of two distinct versions exactly one
/// orders before the other; an absent field orders before any present
/// value of that field.
pub proof fn lemma_version_lt_order(a: VersionV, b: VersionV)
    ensures
        !(version_lt(a, b) && version_lt(b, a)),
        version_lt(a, b) || version_lt(b, a) || a == b,
{
    if a.major == b.major && a.minor == b.minor && a.patch == b.patch {
        match (a.label, b.label) {
            (Some(x), Some(y)) => {
                lemma_seq_lt_order(x, y);
            },
            _ => {},
        }
    }
}

/// The version order is a strict total order, part two: it is
/// transitive.
pub proof fn lemma_version_lt_trans(a: VersionV, b: VersionV, c: VersionV)
    requires
        version_lt(a, b),
        version_lt(b, c),
    ensures
        version_lt(a, c),
{
    match (a.label, b.label, c.label) {
        (Some(x), Some(y), Some(z)) => {
            if seq_lt(x, y) && seq_lt(y, z) {
                lemma_seq_lt_trans(x, y, z);
            }
        },
        _ => {},
    }
}

/// Parsing is total on well-formed input: a string
/// `major.minor.patch-label` written with canonical numerals parses to
/// exactly those four fields and renders back to the same string.
#[verifier::rlimit(100)]
pub proof fn lemma_parse_render_roundtrip(a: u8, b: u8, c: u8, l: Seq<char>)
    ensures
        ({
            let s = dec_of(a as nat) + seq!['.'] + dec_of(b as nat) + seq!['.'] + dec_of(c as nat)
                + seq!['-'] + l;
            let v = VersionV { major: Some(a), minor: Some(b), patch: Some(c), label: Some(l) };
            parse_version(s) == Some(v) && render_version(v) == s
        }),
{
    let da = dec_of(a as nat);
    let db = dec_of(b as nat);
    let dc = dec_of(c as nat);
    lemma_dec_of_val(a as nat);
    lemma_dec_of_val(b as nat);
    lemma_dec_of_val(c as nat);
    let np = da + seq!['.'] + db + seq!['.'] + dc;
    let s = np + seq!['-'] + l;
    let v = VersionV { major: Some(a), minor: Some(b), patch: Some(c), label: Some(l) };

    assert forall|j: int| 0 <= j < np.len() implies np[j] != '-' by {
        if j < da.len() {
            assert(np[j] == da[j]);
            assert(is_digit(da[j]));
        } else if j == da.len() {
            assert(np[j] == '.');
        } else if j < da.len() + 1 + db.len() {
            assert(np[j] == db[j - (da.len() + 1)]);
            assert(is_digit(db[j - (da.len() + 1)]));
        } else if j == da.len() + 1 + db.len() {
            assert(np[j] == '.');
        } else {
            assert(np[j] == dc[j - (da.len() + 1 + db.len() + 1)]);
            assert(is_digit(dc[j - (da.len() + 1 + db.len() + 1)]));
        }
    }
    assert(s[np.len() as int] == '-');
    assert(forall|j: int| 0 <= j < np.len() ==> s[j] == np[j]);
    crate::text::lemma_find_ch_unique(s, '-', np.len() as int);
    assert(s.take(np.len() as int) =~= np);
    assert(s.skip(np.len() + 1 as int) =~= l);

    // the numeric part splits at the first two dots
    assert forall|j: int| 0 <= j < da.len() implies np[j] != '.' by {
        assert(np[j] == da[j]);
        assert(is_digit(da[j]));
    }
    assert(np[da.len() as int] == '.');
    crate::text::lemma_find_ch_unique(np, '.', da.len() as int);
    assert(np.take(da.len() as int) =~= da);
    let r1 = db + seq!['.'] + dc;
    assert(np.skip(da.len() + 1 as int) =~= r1);
    assert(parse_u8(da) == Some(a));

    assert forall|j: int| 0 <= j < db.len() implies r1[j] != '.' by {
        assert(r1[j] == db[j]);
        assert(is_digit(db[j]));
    }
    assert(r1[db.len() as int] == '.');
    crate::text::lemma_find_ch_unique(r1, '.', db.len() as int);
    assert(r1.take(db.len() as int) =~= db);
    assert(r1.skip(db.len() + 1 as int) =~= dc);
    assert(parse_u8(db) == Some(b));

    lemma_find_ch(dc, '.');
    match find_ch(dc, '.') {
        Some(k) => {
            assert(is_digit(dc[k]));
            assert(false);
        },
        None => {},
    }
    assert(parse_u8(dc) == Some(c));
    assert(parse_nums(np) == Some((Some(a), Some(b), Some(c))));
    assert(parse_version(s) == Some(v));

    assert(render_version(v) =~= s);
}

/// The all-absent version parses from the empty string and, read as a
/// query, is a wildcard that includes every candidate.
pub proof fn lemma_empty_query_matches_all(c: VersionV)
    ensures
        parse_version(Seq::<char>::empty()) == Some(
            VersionV { major: None, minor: None, patch: None, label: None },
        ),
        version_includes(VersionV { major: None, minor: None, patch: None, label: None }, c),
{
}

/// The version substring of a release asset name: the text between the
/// first `-` and the following `-` (or the end).
pub open spec fn asset_version_part(name: Seq<char>) -> Option<Seq<char>> {
    match find_ch(name, '-') {
        None => None,
        Some(i) => {
            let rest = name.skip(i + 1);
            match find_ch(rest, '-') {
                None => Some(rest),
                Some(j) => Some(rest.take(j)),
            }
        },
    }
}

/// Meaning of parsing a version out of a release asset name: no second
/// `-`-delimited field is an error; otherwise that field is parsed as a
/// numeric version.
pub open spec fn parse_asset_version(name: Seq<char>) -> Option<VersionV> {
    match asset_version_part(name) {
        None => None,
        Some(vs) => parse_version(vs),
    }
}

} // verus!
