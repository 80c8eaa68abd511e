use rubypick::version::Version;

#[test]
fn version_from_string_with_all_properties() {
    let version = Version::from_string("3.2.0-preview2").unwrap();
    assert_eq!(Some(3), version.major);
    assert_eq!(Some(2), version.minor);
    assert_eq!(Some(0), version.patch);
    assert_eq!(Some(String::from("preview2")), version.label);
}

#[test]
fn version_from_string_with_major_version() {
    let version = Version::from_string("3").unwrap();
    assert_eq!(Some(3), version.major);
    assert_eq!(None, version.minor);
    assert_eq!(None, version.patch);
    assert_eq!(None, version.label);
}

#[test]
fn version_from_string_with_major_and_minor_version() {
    let version = Version::from_string("3.20").unwrap();
    assert_eq!(Some(3), version.major);
    assert_eq!(Some(20), version.minor);
    assert_eq!(None, version.patch);
    assert_eq!(None, version.label);
}

#[test]
fn version_from_string_with_major_minor_and_patch() {
    let version = Version::from_string("1.22.5").unwrap();
    assert_eq!(Some(1), version.major);
    assert_eq!(Some(22), version.minor);
    assert_eq!(Some(5), version.patch);
    assert_eq!(None, version.label);
}

#[test]
fn version_from_string_with_empty_string() {
    let version = Version::from_string("").unwrap();
    assert_eq!(None, version.major);
    assert_eq!(None, version.minor);
    assert_eq!(None, version.patch);
    assert_eq!(None, version.label);
}

#[test]
fn version_from_string_with_hot_garbage() {
    let version = Version::from_string(".hgvgvt.eger-vfdvfd");
    assert!(version.is_err());
}

#[test]
fn version_fmt_with_all_properties() {
    let version = Version::label(3, 2, 1, "blorp");
    let formatted = version.render();
    assert_eq!("3.2.1-blorp", formatted);
}

#[test]
fn version_fmt_with_major_minor_and_patch() {
    let version = Version::patch(3, 22, 1);
    let formatted = version.render();
    assert_eq!("3.22.1", formatted);
}

#[test]
fn version_fmt_with_major_and_minor() {
    let version = Version::minor(2, 2);
    let formatted = version.render();
    assert_eq!("2.2", formatted);
}

#[test]
fn version_fmt_with_major() {
    let version = Version::major(1);
    let formatted = version.render();
    assert_eq!("1", formatted);
}

#[test]
fn parse_then_render_round_trips() {
    for text in ["3.2.0-preview2", "0.0.0-x", "255.255.255-a-b.c", "10.20.30-"] {
        let version = Version::from_string(text).unwrap();
        assert_eq!(text, version.render());
    }
}

#[test]
fn label_keeps_everything_after_first_dash() {
    let version = Version::from_string("3.2.0-pre-view.2").unwrap();
    assert_eq!(Some(String::from("pre-view.2")), version.label);
}

#[test]
fn from_string_rejects_out_of_range_and_partial_numbers() {
    assert!(Version::from_string("256").is_err());
    assert!(Version::from_string("3.2.x").is_err());
    assert!(Version::from_string("3.").is_err());
    assert!(Version::from_string("3..2").is_err());
}

#[test]
fn from_string_major_absent_on_leading_dot() {
    let version = Version::from_string(".5").unwrap();
    assert_eq!(None, version.major);
    assert_eq!(Some(5), version.minor);
}

#[test]
fn version_from_github_asset_name_takes_second_field() {
    let version = Version::from_github_asset_name("rubyinstaller-3.1.2-1-x64.7z").unwrap();
    assert_eq!(Some(3), version.major);
    assert_eq!(Some(1), version.minor);
    assert_eq!(Some(2), version.patch);
    assert_eq!(None, version.label);
}

#[test]
fn version_from_github_asset_name_needs_two_fields() {
    assert!(Version::from_github_asset_name("nodashhere").is_err());
}

#[test]
fn includes_with_major_only_query() {
    let query = Version::from_string("3").unwrap();
    assert!(query.includes(&Version::from_string("3.0.0").unwrap()));
    assert!(query.includes(&Version::from_string("3.9.9-rc1").unwrap()));
    assert!(!query.includes(&Version::from_string("4.0.0").unwrap()));
}

#[test]
fn includes_with_fully_specified_query() {
    let query = Version::from_string("3.2.0-preview2").unwrap();
    assert!(query.includes(&Version::from_string("3.2.0-preview2").unwrap()));
    assert!(!query.includes(&Version::from_string("3.2.0").unwrap()));
    assert!(!query.includes(&Version::from_string("3.2.0-preview1").unwrap()));
    assert!(!query.includes(&Version::from_string("3.2.1-preview2").unwrap()));
    assert!(!query.includes(&Version::from_string("3.2-preview2").unwrap()));
}

#[test]
fn empty_query_includes_every_candidate() {
    let query = Version::from_string("").unwrap();
    assert!(query.includes(&Version::from_string("3.2.0").unwrap()));
    assert!(query.includes(&Version::from_string("0").unwrap()));
    assert!(query.includes(&Version::from_string("-label").unwrap()));
    assert!(query.includes(&Version::empty()));
}

#[test]
fn order_puts_absent_before_present() {
    let none = Version::from_string("3.2").unwrap();
    let some = Version::from_string("3.2.0").unwrap();
    assert!(none.lt(&some));
    assert!(!some.lt(&none));
    let unlabelled = Version::from_string("3.2.0").unwrap();
    let labelled = Version::from_string("3.2.0-preview2").unwrap();
    assert!(unlabelled.lt(&labelled));
    assert!(!labelled.lt(&unlabelled));
}

#[test]
fn order_compares_most_significant_field_first() {
    let a = Version::from_string("2.9.9-zzz").unwrap();
    let b = Version::from_string("3.0.0").unwrap();
    assert!(a.lt(&b));
    assert!(!b.lt(&a));
    let c = Version::from_string("3.2.0-preview1").unwrap();
    let d = Version::from_string("3.2.0-preview2").unwrap();
    assert!(c.lt(&d));
    assert!(!d.lt(&c));
    let e = Version::from_string("3.2.0").unwrap();
    assert!(!e.lt(&e));
}
