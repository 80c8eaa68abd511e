use rubypick::catalog::{build_catalog, RawAsset};
use rubypick::ruby_version::RubyVersion;
use rubypick::version::Version;
use rubypick::version_id::VersionId;

fn entry(version: &str, url: &str, timestamp: i64) -> RubyVersion {
    RubyVersion::new(Version::from_string(version).unwrap(), String::from(url), timestamp)
}

fn asset(name: &str, url: &str, published_at: Option<i64>) -> RawAsset {
    RawAsset { name: String::from(name), url: String::from(url), published_at }
}

#[test]
fn selector_picks_identifier_maximal_match() {
    // catalog: ruby-3.1.0, ruby-3.2.0, ruby-3.2.0-preview2; query: ruby-3.2.
    // The query has no label, so both 3.2.0 and 3.2.0-preview2 match, and
    // the selector picks the identifier-maximal one: a present label
    // orders after an absent one, so 3.2.0-preview2 wins.
    let catalog = vec![
        entry("3.1.0", "u1", 1),
        entry("3.2.0", "u2", 2),
        entry("3.2.0-preview2", "u3", 3),
    ];
    let query = VersionId::from_string("ruby-3.2").unwrap().version.unwrap();
    let found = RubyVersion::find(query, &catalog).unwrap();
    assert_eq!("3.2.0-preview2", found.version.render());
    assert_eq!("u3", found.url);
}

#[test]
fn selector_returns_none_when_nothing_matches() {
    let catalog = vec![entry("3.1.0", "u1", 1), entry("3.2.0", "u2", 2)];
    let query = Version::from_string("4").unwrap();
    assert!(RubyVersion::find(query, &catalog).is_none());
}

#[test]
fn selector_prefers_highest_matching_version() {
    let catalog = vec![
        entry("3.0.1", "u1", 1),
        entry("3.9.9-rc1", "u2", 2),
        entry("3.4.0", "u3", 3),
        entry("4.0.0", "u4", 4),
    ];
    let query = Version::from_string("3").unwrap();
    let found = RubyVersion::find(query, &catalog).unwrap();
    assert_eq!("3.9.9-rc1", found.version.render());
}

#[test]
fn selector_breaks_exact_ties_by_taking_the_later_entry() {
    let catalog = vec![entry("3.2.0", "first", 1), entry("3.2.0", "second", 2)];
    let query = Version::from_string("3.2.0").unwrap();
    let found = RubyVersion::find(query, &catalog).unwrap();
    assert_eq!("second", found.url);
}

#[test]
fn empty_query_matches_every_catalog_entry() {
    let catalog = vec![entry("1.0.0", "u1", 1), entry("9.9.9-z", "u2", 2)];
    let query = Version::from_string("").unwrap();
    let found = RubyVersion::find(query, &catalog).unwrap();
    assert_eq!("9.9.9-z", found.version.render());
}

#[test]
fn catalog_dedup_keeps_later_timestamp() {
    let assets = vec![
        asset("rubyinstaller-3.2.0-1-x64.7z", "old", Some(100)),
        asset("rubyinstaller-3.2.0-1-x64.7z", "new", Some(200)),
    ];
    let catalog = build_catalog(&assets);
    assert_eq!(1, catalog.len());
    assert_eq!("new", catalog[0].url);
    assert_eq!(200, catalog[0].publish_timestamp);
}

#[test]
fn catalog_dedup_tie_keeps_existing_entry() {
    let assets = vec![
        asset("rubyinstaller-3.2.0-1-x64.7z", "first", Some(100)),
        asset("rubyinstaller-3.2.0-1-x64.7z", "second", Some(100)),
    ];
    let catalog = build_catalog(&assets);
    assert_eq!(1, catalog.len());
    assert_eq!("first", catalog[0].url);
}

#[test]
fn catalog_skips_non_archives_unparsable_names_and_missing_timestamps() {
    let assets = vec![
        asset("rubyinstaller-3.2.0-1-x64.exe", "not7z", Some(1)),
        asset("nodashhere.7z", "unparsable", Some(2)),
        asset("rubyinstaller-3.1.0-1-x64.7z", "notime", None),
        asset("rubyinstaller-3.2.0-1-x64.7z", "kept", Some(3)),
    ];
    let catalog = build_catalog(&assets);
    assert_eq!(1, catalog.len());
    assert_eq!("kept", catalog[0].url);
    assert_eq!("3.2.0", catalog[0].version.render());
}

#[test]
fn catalog_is_sorted_ascending_by_version() {
    let assets = vec![
        asset("rubyinstaller-3.2.0-1-x64.7z", "c", Some(1)),
        asset("rubyinstaller-2.7.8-1-x64.7z", "a", Some(2)),
        asset("rubyinstaller-3.2.0-preview2-x64.7z", "b", Some(3)),
        asset("rubyinstaller-3.0.1-1-x64.7z", "d", Some(4)),
    ];
    let catalog = build_catalog(&assets);
    let rendered: Vec<String> = catalog.iter().map(|e| e.version.render()).collect();
    assert_eq!(vec!["2.7.8", "3.0.1", "3.2.0", "3.2.0"], rendered);
}

#[test]
fn distinct_asset_names_with_equal_versions_stay_distinct() {
    let assets = vec![
        asset("rubyinstaller-3.2.0-1-x64.7z", "x64", Some(1)),
        asset("rubyinstaller-3.2.0-1-x86.7z", "x86", Some(2)),
    ];
    let catalog = build_catalog(&assets);
    assert_eq!(2, catalog.len());
}
