use rubypick::version_id::VersionId;

#[test]
fn version_id_from_string_with_all_properties() {
    let version_id = VersionId::from_string("ruby-3.2.0-preview2").unwrap();
    let version = version_id.version.unwrap();
    assert_eq!(Some(String::from("ruby")), version_id.interpreter);
    assert_eq!(Some(3), version.major);
    assert_eq!(Some(2), version.minor);
    assert_eq!(Some(0), version.patch);
    assert_eq!(Some(String::from("preview2")), version.label);
}

#[test]
fn version_id_from_string_with_interpreter() {
    let version_id = VersionId::from_string("ruby").unwrap();
    assert_eq!(Some(String::from("ruby")), version_id.interpreter);
    assert!(version_id.version.is_none());
}

#[test]
fn version_id_from_string_with_version() {
    let version_id = VersionId::from_string("3.2.0-preview2").unwrap();
    let version = version_id.version.unwrap();
    assert_eq!(None, version_id.interpreter);
    assert_eq!(Some(3), version.major);
    assert_eq!(Some(2), version.minor);
    assert_eq!(Some(0), version.patch);
    assert_eq!(Some(String::from("preview2")), version.label);
}

#[test]
fn version_id_from_string_with_major_minor_patch_and_label() {
    let version_id = VersionId::from_string("3.2.0-preview2").unwrap();
    let version = version_id.version.unwrap();
    assert_eq!(None, version_id.interpreter);
    assert_eq!(Some(3), version.major);
    assert_eq!(Some(2), version.minor);
    assert_eq!(Some(0), version.patch);
    assert_eq!(Some(String::from("preview2")), version.label);
}

#[test]
fn version_id_from_string_with_major_minor_and_patch() {
    let version_id = VersionId::from_string("3.2.0").unwrap();
    let version = version_id.version.unwrap();
    assert_eq!(None, version_id.interpreter);
    assert_eq!(Some(3), version.major);
    assert_eq!(Some(2), version.minor);
    assert_eq!(Some(0), version.patch);
    assert_eq!(None, version.label);
}

#[test]
fn version_id_from_string_with_major_and_minor() {
    let version_id = VersionId::from_string("3.2").unwrap();
    let version = version_id.version.unwrap();
    assert_eq!(None, version_id.interpreter);
    assert_eq!(Some(3), version.major);
    assert_eq!(Some(2), version.minor);
    assert_eq!(None, version.patch);
    assert_eq!(None, version.label);
}

#[test]
fn version_id_from_string_with_major() {
    let version_id = VersionId::from_string("3").unwrap();
    let version = version_id.version.unwrap();
    assert_eq!(None, version_id.interpreter);
    assert_eq!(Some(3), version.major);
    assert_eq!(None, version.minor);
    assert_eq!(None, version.patch);
    assert_eq!(None, version.label);
}

#[test]
fn version_id_from_string_with_empty_string() {
    let version_id = VersionId::from_string("").unwrap();
    assert_eq!(None, version_id.interpreter);
    assert!(version_id.version.is_none());
}

#[test]
fn version_id_from_string_with_hot_garbage() {
    let version_id = VersionId::from_string(".hgvgvt.eger-vfdvfd");
    assert!(version_id.is_err());
}

#[test]
fn version_id_fmt_with_all_properties() {
    let version_id = VersionId::interpreter_and_label("ruby", 3, 2, 0, "blorp");
    let formatted = version_id.render();
    assert_eq!("ruby-3.2.0-blorp", formatted);
}

#[test]
fn fmt_with_interpreter() {
    let version_id = VersionId::interpreter("ruby");
    let formatted = version_id.render();
    assert_eq!("ruby", formatted);
}

#[test]
fn fmt_with_major_minor_patch_and_label() {
    let version_id = VersionId::label(3, 2, 0, "preview2");
    let formatted = version_id.render();
    assert_eq!("3.2.0-preview2", formatted);
}

#[test]
fn version_id_fmt_with_major_minor_and_patch() {
    let version_id = VersionId::patch(3, 2, 0);
    let formatted = version_id.render();
    assert_eq!("3.2.0", formatted);
}

#[test]
fn version_id_fmt_with_major_and_minor() {
    let version_id = VersionId::minor(3, 2);
    let formatted = version_id.render();
    assert_eq!("3.2", formatted);
}

#[test]
fn version_id_fmt_with_major() {
    let version_id = VersionId::major(3);
    let formatted = version_id.render();
    assert_eq!("3", formatted);
}

#[test]
fn version_id_from_github_asset_name_forces_interpreter() {
    let version_id = VersionId::from_github_asset_name("rubyinstaller-3.1.2-1-x64.7z").unwrap();
    assert_eq!(Some(String::from("ruby")), version_id.interpreter);
    let version = version_id.version.unwrap();
    assert_eq!(Some(3), version.major);
    assert_eq!(Some(1), version.minor);
    assert_eq!(Some(2), version.patch);
}

#[test]
fn version_id_from_github_asset_name_needs_two_fields() {
    assert!(VersionId::from_github_asset_name("nodashhere").is_err());
}

#[test]
fn version_id_order_compares_interpreter_first() {
    let bare = VersionId::from_string("3.2.0").unwrap();
    let named = VersionId::from_string("ruby-3.2.0").unwrap();
    // absent interpreter orders before any present one
    assert!(bare.lt(&named));
    assert!(!named.lt(&bare));
    let jruby = VersionId::from_string("jruby-9.9.9").unwrap();
    let ruby = VersionId::from_string("ruby-1.0.0").unwrap();
    assert!(jruby.lt(&ruby));
    assert!(!ruby.lt(&jruby));
}

#[test]
fn version_id_order_uses_version_for_equal_interpreters() {
    let older = VersionId::from_string("ruby-3.1.9").unwrap();
    let newer = VersionId::from_string("ruby-3.2.0").unwrap();
    assert!(older.lt(&newer));
    assert!(!newer.lt(&older));
    let bare = VersionId::from_string("ruby").unwrap();
    assert!(bare.lt(&older));
    assert!(!older.lt(&bare));
    assert!(!bare.lt(&bare));
}
