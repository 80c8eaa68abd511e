//! A release record: a parsed version, the asset's download URL and its
//! publish timestamp; and the selector that picks the best record
//! matching a possibly underspecified query.

use vstd::prelude::*;

use crate::version::{
    lemma_version_lt_order, lemma_version_lt_trans, version_includes, version_lt, Version,
    VersionV,
};

verus! {

/// Mathematical model of a release record.
pub struct RubyVersionV {
    pub version: VersionV,
    pub url: Seq<char>,
    pub publish_timestamp: i64,
}

/// One known release: its parsed version, where to download it, and
/// when it was published.
#[derive(Debug)]
pub struct RubyVersion {
    pub version: Version,
    pub url: String,
    pub publish_timestamp: i64,
}

impl View for RubyVersion {
    type V = RubyVersionV;

    open spec fn view(&self) -> RubyVersionV {
        RubyVersionV {
            version: self.version@,
            url: self.url@,
            publish_timestamp: self.publish_timestamp,
        }
    }
}

impl RubyVersion {
    /// A release record from its parts.
    pub fn new(version: Version, url: String, publish_timestamp: i64) -> (r: RubyVersion)
        ensures
            r@ == (RubyVersionV {
                version: version@,
                url: url@,
                publish_timestamp: publish_timestamp,
            }),
    {
        RubyVersion { version, url, publish_timestamp }
    }

    /// Select the best release matching `needle`: among the entries
    /// whose version the query includes, one with the greatest version;
    /// when several entries tie for greatest, the one latest in
    /// iteration order wins (an accepted nondeterminism of the catalog
    /// order, settled here as last-wins). `None` exactly when nothing
    /// matches.
    pub fn find<'a>(needle: Version, haystack: &'a Vec<RubyVersion>) -> (r: Option<
        &'a RubyVersion,
    >)
        ensures
            match r {
                None => forall|j: int|
                    0 <= j < haystack@.len() ==> !version_includes(
                        needle@,
                        haystack@[j].version@,
                    ),
                Some(rv) => {
                    &&& exists|i: int|
                        {
                            &&& 0 <= i < haystack@.len()
                            &&& haystack@[i] == *rv
                            &&& version_includes(needle@, #[trigger] haystack@[i].version@)
                            &&& forall|j: int|
                                i < j < haystack@.len() && version_includes(
                                    needle@,
                                    #[trigger] haystack@[j].version@,
                                ) ==> version_lt(haystack@[j].version@, haystack@[i].version@)
                        }
                    &&& forall|j: int|
                        0 <= j < haystack@.len() && version_includes(
                            needle@,
                            #[trigger] haystack@[j].version@,
                        ) ==> !version_lt(rv.version@, haystack@[j].version@)
                },
            },
    {
        let mut best: Option<usize> = None;
        let mut k: usize = 0;
        let n = haystack.len();
        while k < n
            invariant
                0 <= k <= n,
                n == haystack@.len(),
                match best {
                    None => forall|j: int|
                        0 <= j < k ==> !version_includes(needle@, #[trigger] haystack@[j].version@),
                    Some(bi) => {
                        &&& 0 <= bi < k
                        &&& version_includes(needle@, haystack@[bi as int].version@)
                        &&& forall|j: int|
                            0 <= j < k && version_includes(
                                needle@,
                                #[trigger] haystack@[j].version@,
                            ) ==> !version_lt(haystack@[bi as int].version@, haystack@[j].version@)
                        &&& forall|j: int|
                            bi < j < k && version_includes(
                                needle@,
                                #[trigger] haystack@[j].version@,
                            ) ==> version_lt(haystack@[j].version@, haystack@[bi as int].version@)
                    },
                },
            decreases n - k,
        {
            let entry = &haystack[k];
            let is_match = needle.includes(&entry.version);
            proof {
                assert(*entry == haystack@[k as int]);
            }
            if is_match {
                match best {
                    None => {
                        proof {
                            lemma_version_lt_order(
                                haystack@[k as int].version@,
                                haystack@[k as int].version@,
                            );
                        }
                        best = Some(k);
                    },
                    Some(bi) => {
                        let b = &haystack[bi];
                        proof {
                            assert(*b == haystack@[bi as int]);
                        }
                        if !entry.version.lt(&b.version) {
                            proof {
                                let hv = haystack@;
                                let ki = k as int;
                                let bii = bi as int;
                                assert forall|j: int|
                                    0 <= j < ki + 1 && version_includes(
                                        needle@,
                                        #[trigger] hv[j].version@,
                                    ) implies !version_lt(hv[ki].version@, hv[j].version@) by {
                                    if j == ki {
                                        lemma_version_lt_order(hv[ki].version@, hv[ki].version@);
                                    } else {
                                        lemma_version_lt_order(hv[ki].version@, hv[bii].version@);
                                        if version_lt(hv[ki].version@, hv[j].version@) {
                                            if version_lt(hv[bii].version@, hv[ki].version@) {
                                                lemma_version_lt_trans(
                                                    hv[bii].version@,
                                                    hv[ki].version@,
                                                    hv[j].version@,
                                                );
                                            }
                                        }
                                    }
                                }
                            }
                            best = Some(k);
                        } else {
                            proof {
                                lemma_version_lt_order(
                                    haystack@[k as int].version@,
                                    haystack@[bi as int].version@,
                                );
                            }
                        }
                    },
                }
            }
            k += 1;
        }
        match best {
            None => None,
            Some(bi) => {
                let r = &haystack[bi];
                proof {
                    let i = bi as int;
                    assert({
                        &&& 0 <= i < haystack@.len()
                        &&& haystack@[i] == *r
                        &&& version_includes(needle@, haystack@[i].version@)
                        &&& forall|j: int|
                            i < j < haystack@.len() && version_includes(
                                needle@,
                                #[trigger] haystack@[j].version@,
                            ) ==> version_lt(haystack@[j].version@, haystack@[i].version@)
                    });
                }
                Some(r)
            },
        }
    }
}

} // verus!
