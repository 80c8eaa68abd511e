//! Catalog construction: turn raw release assets into deduplicated,
//! sorted release records. An asset contributes an entry when its name
//! ends in `.7z`, its name parses to a version, and it carries a publish
//! timestamp; two assets with the same raw name are reconciled by
//! keeping the one published later, a tie keeping the earlier-seen one.

use vstd::prelude::*;

use crate::ruby_version::{RubyVersion, RubyVersionV};
use crate::version::{
    lemma_version_lt_order, lemma_version_lt_trans, parse_asset_version, version_lt, Version,
};

verus! {

/// Mathematical model of a raw asset record.
pub struct RawAssetV {
    pub name: Seq<char>,
    pub url: Seq<char>,
    pub published_at: Option<i64>,
}

/// One raw asset as the release source reports it: its file name, its
/// download URL, and its publish timestamp when the source knows one.
#[derive(Debug)]
pub struct RawAsset {
    pub name: String,
    pub url: String,
    pub published_at: Option<i64>,
}

impl View for RawAsset {
    type V = RawAssetV;

    open spec fn view(&self) -> RawAssetV {
        RawAssetV { name: self.name@, url: self.url@, published_at: self.published_at }
    }
}

/// The models of a sequence of raw assets.
pub open spec fn assets_view(s: Seq<RawAsset>) -> Seq<RawAssetV> {
    s.map_values(|a: RawAsset| a@)
}

/// The asset name ends in `.7z`.
pub open spec fn ends_7z(name: Seq<char>) -> bool {
    name.len() >= 3 && name[name.len() - 3] == '.' && name[name.len() - 2] == '7' && name[name.len()
        - 1] == 'z'
}

/// An asset contributes to the catalog: archive name, parsable version,
/// known publish time.
pub open spec fn asset_accepted(a: RawAssetV) -> bool {
    ends_7z(a.name) && parse_asset_version(a.name) is Some && a.published_at is Some
}

/// The catalog entry an accepted asset contributes.
pub open spec fn asset_entry(a: RawAssetV) -> RubyVersionV
    recommends
        asset_accepted(a),
{
    RubyVersionV {
        version: parse_asset_version(a.name)->Some_0,
        url: a.url,
        publish_timestamp: a.published_at->Some_0,
    }
}

/// The entry the catalog finally holds under raw name `name` after the
/// assets are taken in order: each accepted asset with that name either
/// starts the entry or replaces it when published strictly later.
pub open spec fn chosen(assets: Seq<RawAssetV>, name: Seq<char>) -> Option<RubyVersionV>
    decreases assets.len(),
{
    if assets.len() == 0 {
        None
    } else {
        let prev = chosen(assets.drop_last(), name);
        let a = assets.last();
        if asset_accepted(a) && a.name == name {
            match prev {
                None => Some(asset_entry(a)),
                Some(e) => if asset_entry(a).publish_timestamp > e.publish_timestamp {
                    Some(asset_entry(a))
                } else {
                    Some(e)
                },
            }
        } else {
            prev
        }
    }
}

/// How taking one more asset changes the chosen entry for `name`.
proof fn lemma_chosen_step(av: Seq<RawAssetV>, t: int, n: Seq<char>)
    requires
        0 <= t < av.len(),
    ensures
        chosen(av.take(t + 1), n) == ({
            let prev = chosen(av.take(t), n);
            let a = av[t];
            if asset_accepted(a) && a.name == n {
                match prev {
                    None => Some(asset_entry(a)),
                    Some(e) => if asset_entry(a).publish_timestamp > e.publish_timestamp {
                        Some(asset_entry(a))
                    } else {
                        Some(e)
                    },
                }
            } else {
                prev
            }
        }),
{
    assert(av.take(t + 1).drop_last() =~= av.take(t));
    assert(av.take(t + 1).last() == av[t]);
}

/// The working state of catalog construction is faithful to the assets
/// taken so far: raw names are distinct, every kept pair holds exactly
/// the chosen entry for its name, and every name with a chosen entry is
/// kept.
pub open spec fn dedup_ok(av: Seq<RawAssetV>, ps: Seq<(String, RubyVersion)>) -> bool {
    &&& forall|p: int, q: int| 0 <= p < q < ps.len() ==> ps[p].0@ != ps[q].0@
    &&& forall|p: int| 0 <= p < ps.len() ==> chosen(av, ps[p].0@) == Some(ps[p].1@)
    &&& forall|n: Seq<char>|
        chosen(av, n) is Some ==> exists|p: int| 0 <= p < ps.len() && #[trigger] ps[p].0@ == n
}

/// Does the asset name end in `.7z`?
fn ends_with_7z(name: &str) -> (r: bool)
    ensures
        r == ends_7z(name@),
{
    let n = name.unicode_len();
    if n < 3 {
        return false;
    }
    name.get_char(n - 3) == '.' && name.get_char(n - 2) == '7' && name.get_char(n - 1) == 'z'
}

/// The position of `name` among the kept pairs, if it is kept.
fn find_name(pairs: &Vec<(String, RubyVersion)>, name: &str) -> (r: Option<usize>)
    ensures
        match r {
            Some(p) => 0 <= p < pairs@.len() && pairs@[p as int].0@ == name@,
            None => forall|q: int| 0 <= q < pairs@.len() ==> pairs@[q].0@ != name@,
        },
{
    let mut p: usize = 0;
    let n = pairs.len();
    while p < n
        invariant
            0 <= p <= n,
            n == pairs@.len(),
            forall|q: int| 0 <= q < p ==> pairs@[q].0@ != name@,
        decreases n - p,
    {
        if crate::version::str_eq(pairs[p].0.as_str(), name) {
            return Some(p);
        }
        p += 1;
    }
    None
}

/// Take the raw assets in order and keep, per raw name, the entry of
/// the accepted asset published last (ties keeping the earlier one).
fn dedup_assets(assets: &Vec<RawAsset>) -> (pairs: Vec<(String, RubyVersion)>)
    ensures
        dedup_ok(assets_view(assets@), pairs@),
{
    let ghost av = assets_view(assets@);
    let mut pairs: Vec<(String, RubyVersion)> = Vec::new();
    let mut t: usize = 0;
    let n = assets.len();
    proof {
        assert(av.take(0) =~= Seq::<RawAssetV>::empty());
    }
    while t < n
        invariant
            0 <= t <= n,
            n == assets@.len(),
            av == assets_view(assets@),
            dedup_ok(av.take(t as int), pairs@),
        decreases n - t,
    {
        let asset = &assets[t];
        proof {
            assert(av[t as int] == assets@[t as int]@);
        }
        let e7z = ends_with_7z(asset.name.as_str());
        let parsed = Version::from_github_asset_name(asset.name.as_str());
        let has_ts = asset.published_at.is_some();
        if e7z && parsed.is_ok() && has_ts {
            assert(asset_accepted(av[t as int]));
            let version = match parsed {
                Ok(v) => v,
                Err(_) => {
                    proof {
                        assert(false);
                    }
                    Version::empty()
                },
            };
            let ts = match asset.published_at {
                Some(x) => x,
                None => {
                    proof {
                        assert(false);
                    }
                    0
                },
            };
            let entry = RubyVersion::new(version, asset.url.clone(), ts);
            proof {
                assert(entry@ == asset_entry(av[t as int]));
            }
            match find_name(&pairs, asset.name.as_str()) {
                None => {
                    let ghost old_pairs = pairs@;
                    pairs.push((asset.name.clone(), entry));
                    proof {
                        let tt = t as int;
                        let a = av[tt];
                        let last = old_pairs.len() as int;
                        assert(pairs@[last].0@ == a.name);
                        assert(pairs@[last].1@ == asset_entry(a));
                        assert(forall|p: int| 0 <= p < last ==> pairs@[p] == old_pairs[p]);
                        // no prior entry for this name, so none was chosen yet
                        if chosen(av.take(tt), a.name) is Some {
                            assert(false);
                        }
                        assert forall|nm: Seq<char>| true implies #[trigger] chosen(
                            av.take(tt + 1),
                            nm,
                        ) == (if nm == a.name {
                            Some(asset_entry(a))
                        } else {
                            chosen(av.take(tt), nm)
                        }) by {
                            lemma_chosen_step(av, tt, nm);
                        }
                        assert forall|p: int, q: int|
                            0 <= p < q < pairs@.len() implies pairs@[p].0@ != pairs@[q].0@ by {
                            if q == last {
                                assert(old_pairs[p].0@ != a.name);
                            }
                        }
                        assert forall|p: int| 0 <= p < pairs@.len() implies chosen(
                            av.take(tt + 1),
                            #[trigger] pairs@[p].0@,
                        ) == Some(pairs@[p].1@) by {
                            if p < last {
                                assert(pairs@[p] == old_pairs[p]);
                                assert(pairs@[p].0@ != a.name);
                                assert(chosen(av.take(tt), pairs@[p].0@) == Some(pairs@[p].1@));
                            }
                        }
                        assert forall|nm: Seq<char>|
                            (#[trigger] chosen(av.take(tt + 1), nm)) is Some implies exists|p: int|
                            0 <= p < pairs@.len() && #[trigger] pairs@[p].0@ == nm by {
                            if nm == a.name {
                                assert(pairs@[last].0@ == nm);
                            } else {
                                assert(chosen(av.take(tt), nm) is Some);
                                let p = choose|p: int|
                                    0 <= p < old_pairs.len() && #[trigger] old_pairs[p].0@ == nm;
                                assert(pairs@[p].0@ == nm);
                            }
                        }
                        assert(dedup_ok(av.take(tt + 1), pairs@));
                    }
                },
                Some(p) => {
                    if ts > pairs[p].1.publish_timestamp {
                        let ghost old_pairs = pairs@;
                        let _ = pairs.remove(p);
                        pairs.insert(p, (asset.name.clone(), entry));
                        proof {
                            let tt = t as int;
                            let a = av[tt];
                            let pi = p as int;
                            assert(forall|x: int|
                                0 <= x < pairs@.len() && x != pi ==> pairs@[x] == old_pairs[x]);
                            assert(pairs@[pi].0@ == a.name);
                            assert(pairs@[pi].1@ == asset_entry(a));
                            assert(old_pairs[pi].0@ == a.name);
                            assert forall|nm: Seq<char>| true implies #[trigger] chosen(
                                av.take(tt + 1),
                                nm,
                            ) == (if nm == a.name {
                                Some(asset_entry(a))
                            } else {
                                chosen(av.take(tt), nm)
                            }) by {
                                lemma_chosen_step(av, tt, nm);
                                if nm == a.name {
                                    assert(chosen(av.take(tt), nm) == Some(old_pairs[pi].1@));
                                    assert(asset_entry(a).publish_timestamp
                                        > old_pairs[pi].1@.publish_timestamp);
                                }
                            }
                            assert forall|x: int, y: int|
                                0 <= x < y < pairs@.len() implies pairs@[x].0@ != pairs@[y].0@ by {
                                assert(pairs@[x].0@ == old_pairs[x].0@);
                                assert(pairs@[y].0@ == old_pairs[y].0@);
                            }
                            assert forall|x: int| 0 <= x < pairs@.len() implies chosen(
                                av.take(tt + 1),
                                #[trigger] pairs@[x].0@,
                            ) == Some(pairs@[x].1@) by {
                                if x != pi {
                                    assert(pairs@[x] == old_pairs[x]);
                                    assert(pairs@[x].0@ != a.name);
                                    assert(chosen(av.take(tt), pairs@[x].0@) == Some(
                                        pairs@[x].1@,
                                    ));
                                }
                            }
                            assert forall|nm: Seq<char>|
                                (#[trigger] chosen(av.take(tt + 1), nm)) is Some implies exists|x: int|
                                0 <= x < pairs@.len() && #[trigger] pairs@[x].0@ == nm by {
                                if nm == a.name {
                                    assert(pairs@[pi].0@ == nm);
                                } else {
                                    assert(chosen(av.take(tt), nm) is Some);
                                    let x = choose|x: int|
                                        0 <= x < old_pairs.len() && #[trigger] old_pairs[x].0@
                                            == nm;
                                    assert(pairs@[x].0@ == old_pairs[x].0@);
                                    assert(pairs@[x].0@ == nm);
                                }
                            }
                            assert(dedup_ok(av.take(tt + 1), pairs@));
                        }
                    } else {
                        proof {
                            let tt = t as int;
                            let a = av[tt];
                            let pi = p as int;
                            assert forall|nm: Seq<char>| true implies #[trigger] chosen(
                                av.take(tt + 1),
                                nm,
                            ) == chosen(av.take(tt), nm) by {
                                lemma_chosen_step(av, tt, nm);
                                if nm == a.name {
                                    assert(chosen(av.take(tt), nm) == Some(pairs@[pi].1@));
                                    assert(!(asset_entry(a).publish_timestamp > pairs@[pi].1@.publish_timestamp));
                                }
                            }
                            assert(dedup_ok(av.take(tt + 1), pairs@));
                        }
                    }
                },
            }
        } else {
            proof {
                let tt = t as int;
                assert(!asset_accepted(av[tt]));
                assert forall|nm: Seq<char>| true implies #[trigger] chosen(av.take(tt + 1), nm)
                    == chosen(av.take(tt), nm) by {
                    lemma_chosen_step(av, tt, nm);
                }
                assert(dedup_ok(av.take(tt + 1), pairs@));
            }
        }
        t += 1;
    }
    proof {
        assert(av.take(n as int) =~= av);
    }
    pairs
}

/// The pairs stand in ascending version order: no later entry's version
/// orders below an earlier one's.
pub open spec fn sorted_by_version(ps: Seq<(String, RubyVersion)>) -> bool {
    forall|p: int, q: int|
        0 <= p < q < ps.len() ==> !version_lt(ps[q].1.version@, ps[p].1.version@)
}

/// The non-strict version order is transitive.
proof fn lemma_version_le_trans(a: crate::version::VersionV, b: crate::version::VersionV, c: crate::version::VersionV)
    requires
        !version_lt(b, a),
        !version_lt(c, b),
    ensures
        !version_lt(c, a),
{
    if version_lt(c, a) {
        lemma_version_lt_order(a, b);
        if version_lt(a, b) {
            lemma_version_lt_trans(c, a, b);
        }
    }
}

/// Exchanging two neighbouring pairs keeps the catalog state faithful:
/// `dedup_ok` does not depend on the order of the pairs.
proof fn lemma_dedup_ok_swap(
    ps: Seq<(String, RubyVersion)>,
    j: int,
    qs: Seq<(String, RubyVersion)>,
)
    requires
        1 <= j < ps.len(),
        qs.len() == ps.len(),
        qs[j - 1] == ps[j],
        qs[j] == ps[j - 1],
        forall|x: int| 0 <= x < ps.len() && x != j - 1 && x != j ==> qs[x] == ps[x],
    ensures
        forall|av: Seq<RawAssetV>| #[trigger] dedup_ok(av, ps) ==> dedup_ok(av, qs),
{
    assert forall|av: Seq<RawAssetV>| #[trigger] dedup_ok(av, ps) implies dedup_ok(av, qs) by {
        assert forall|p: int, q: int|
            0 <= p < q < qs.len() implies qs[p].0@ != qs[q].0@ by {
            let p2: int = if p == j - 1 {
                j
            } else if p == j {
                j - 1
            } else {
                p
            };
            let q2: int = if q == j - 1 {
                j
            } else if q == j {
                j - 1
            } else {
                q
            };
            assert(qs[p] == ps[p2]);
            assert(qs[q] == ps[q2]);
            if p2 < q2 {
                assert(ps[p2].0@ != ps[q2].0@);
            } else {
                assert(ps[q2].0@ != ps[p2].0@);
            }
        }
        assert forall|p: int| 0 <= p < qs.len() implies chosen(av, #[trigger] qs[p].0@) == Some(
            qs[p].1@,
        ) by {
            let p2: int = if p == j - 1 {
                j
            } else if p == j {
                j - 1
            } else {
                p
            };
            assert(qs[p] == ps[p2]);
            assert(chosen(av, ps[p2].0@) == Some(ps[p2].1@));
        }
        assert forall|n: Seq<char>| (#[trigger] chosen(av, n)) is Some implies exists|p: int|
            0 <= p < qs.len() && #[trigger] qs[p].0@ == n by {
            let p = choose|p: int| 0 <= p < ps.len() && #[trigger] ps[p].0@ == n;
            let p2: int = if p == j - 1 {
                j
            } else if p == j {
                j - 1
            } else {
                p
            };
            assert(qs[p2] == ps[p]);
            assert(qs[p2].0@ == n);
        }
    }
}

/// Sort the pairs into ascending version order (insertion sort by
/// neighbour exchanges), keeping the catalog state faithful.
fn sort_pairs(pairs: &mut Vec<(String, RubyVersion)>)
    ensures
        sorted_by_version(final(pairs)@),
        final(pairs)@.len() == old(pairs)@.len(),
        forall|av: Seq<RawAssetV>| #[trigger] dedup_ok(av, old(pairs)@) ==> dedup_ok(
            av,
            final(pairs)@,
        ),
{
    let n = pairs.len();
    if n <= 1 {
        return ;
    }
    let mut i: usize = 1;
    while i < n
        invariant
            1 <= i <= n,
            n == pairs@.len(),
            forall|av: Seq<RawAssetV>| #[trigger] dedup_ok(av, old(pairs)@) ==> dedup_ok(
                av,
                pairs@,
            ),
            forall|p: int, q: int|
                0 <= p < q < i ==> !version_lt(pairs@[q].1.version@, pairs@[p].1.version@),
        decreases n - i,
    {
        let mut j: usize = i;
        let mut moving = true;
        while moving && j > 0
            invariant
                0 <= j <= i < n,
                n == pairs@.len(),
                forall|av: Seq<RawAssetV>| #[trigger] dedup_ok(av, old(pairs)@) ==> dedup_ok(
                    av,
                    pairs@,
                ),
                forall|p: int, q: int|
                    0 <= p < q <= i && q != j ==> !version_lt(
                        pairs@[q].1.version@,
                        pairs@[p].1.version@,
                    ),
                !moving ==> forall|p: int, q: int|
                    0 <= p < q <= i ==> !version_lt(pairs@[q].1.version@, pairs@[p].1.version@),
            decreases j + (if moving { 1int } else { 0int }),
        {
            if pairs[j].1.version.lt(&pairs[j - 1].1.version) {
                let ghost before = pairs@;
                let x = pairs.remove(j);
                pairs.insert(j - 1, x);
                proof {
                    let ji = j as int;
                    assert forall|x: int| 0 <= x < pairs@.len() implies pairs@[x] == (if x == ji
                        - 1 {
                        before[ji]
                    } else if x == ji {
                        before[ji - 1]
                    } else {
                        before[x]
                    }) by {}
                    lemma_dedup_ok_swap(before, ji, pairs@);
                    lemma_version_lt_order(before[ji].1.version@, before[ji - 1].1.version@);
                    assert forall|p: int, q: int|
                        0 <= p < q <= i && q != ji - 1 implies !version_lt(
                        pairs@[q].1.version@,
                        pairs@[p].1.version@,
                    ) by {
                        if q == ji {
                            if p < ji - 1 {
                                assert(pairs@[q] == before[ji - 1]);
                                assert(pairs@[p] == before[p]);
                                assert(!version_lt(before[ji - 1].1.version@, before[p].1.version@));
                            } else {
                                assert(p == ji - 1);
                                assert(pairs@[p] == before[ji]);
                                assert(pairs@[q] == before[ji - 1]);
                            }
                        } else if q > ji {
                            assert(pairs@[q] == before[q]);
                            if p == ji - 1 {
                                assert(pairs@[p] == before[ji]);
                                assert(!version_lt(before[q].1.version@, before[ji].1.version@));
                            } else if p == ji {
                                assert(pairs@[p] == before[ji - 1]);
                                assert(!version_lt(before[q].1.version@, before[ji - 1].1.version@));
                            } else {
                                assert(pairs@[p] == before[p]);
                            }
                        } else {
                            assert(q < ji - 1);
                            assert(pairs@[q] == before[q] && pairs@[p] == before[p]);
                        }
                    }
                }
                j -= 1;
            } else {
                proof {
                    let ji = j as int;
                    assert forall|p: int, q: int|
                        0 <= p < q <= i implies !version_lt(
                        pairs@[q].1.version@,
                        pairs@[p].1.version@,
                    ) by {
                        if q == ji && p < ji - 1 {
                            lemma_version_le_trans(
                                pairs@[p].1.version@,
                                pairs@[ji - 1].1.version@,
                                pairs@[ji].1.version@,
                            );
                        }
                    }
                }
                moving = false;
            }
        }
        i += 1;
    }
}

/// The catalog `rs` is exactly the deduplicated asset map: `names`
/// enumerates the kept raw names without repetition, the entry at each
/// position is the one chosen for its name, and every name with a
/// chosen entry appears.
pub open spec fn catalog_names_ok(
    av: Seq<RawAssetV>,
    rs: Seq<RubyVersion>,
    names: Seq<Seq<char>>,
) -> bool {
    &&& names.len() == rs.len()
    &&& forall|p: int, q: int| 0 <= p < q < names.len() ==> names[p] != names[q]
    &&& forall|p: int| 0 <= p < rs.len() ==> chosen(av, #[trigger] names[p]) == Some(rs[p]@)
    &&& forall|n: Seq<char>| (#[trigger] chosen(av, n)) is Some ==> names.contains(n)
}

/// Build the release catalog from the raw assets: skip assets that are
/// not `.7z` archives, whose names do not parse, or that lack a publish
/// timestamp; keep one entry per raw name, the one published last; and
/// return the entries in ascending version order.
pub fn build_catalog(assets: &Vec<RawAsset>) -> (r: Vec<RubyVersion>)
    ensures
        forall|p: int, q: int|
            0 <= p < q < r@.len() ==> !version_lt(r@[q].version@, r@[p].version@),
        exists|names: Seq<Seq<char>>|
            #[trigger] catalog_names_ok(assets_view(assets@), r@, names),
{
    let mut pairs = dedup_assets(assets);
    sort_pairs(&mut pairs);
    let ghost av = assets_view(assets@);
    let ghost sorted_pairs = pairs@;
    let ghost names = pairs@.map_values(|pr: (String, RubyVersion)| pr.0@);
    let mut result: Vec<RubyVersion> = Vec::new();
    while pairs.len() > 0
        invariant
            result@.len() + pairs@.len() == sorted_pairs.len(),
            forall|x: int| 0 <= x < result@.len() ==> result@[x] == sorted_pairs[x].1,
            forall|x: int|
                0 <= x < pairs@.len() ==> pairs@[x] == sorted_pairs[result@.len() + x],
        decreases pairs@.len(),
    {
        let pr = pairs.remove(0);
        result.push(pr.1);
    }
    proof {
        assert(names.len() == result@.len());
        assert forall|p: int| 0 <= p < result@.len() implies chosen(av, #[trigger] names[p])
            == Some(result@[p]@) by {
            assert(names[p] == sorted_pairs[p].0@);
            assert(result@[p] == sorted_pairs[p].1);
            assert(chosen(av, sorted_pairs[p].0@) == Some(sorted_pairs[p].1@));
        }
        assert forall|n: Seq<char>| (#[trigger] chosen(av, n)) is Some implies names.contains(
            n,
        ) by {
            let p = choose|p: int| 0 <= p < sorted_pairs.len() && #[trigger] sorted_pairs[p].0@
                == n;
            assert(names[p] == n);
        }
        assert(catalog_names_ok(av, result@, names));
    }
    result
}

} // verus!
