use fmods::mod_info::{Dependency, DependencyType, Version};

#[test]
fn version_two_components_defaults_patch() {
    let v = Version::parse("1.2").unwrap();
    assert_eq!(v, Version::new(1, 2, 0));
}

#[test]
fn version_order_major_dominates() {
    assert!(Version::new(2, 0, 0) > Version::new(1, 9, 9));
}

#[test]
fn version_equality_componentwise() {
    assert!(Version::new(1, 2, 3) == Version::new(1, 2, 3));
    assert!(Version::new(1, 2, 3) != Version::new(1, 2, 4));
}

#[test]
fn version_order_minor_and_patch() {
    assert!(Version::new(1, 2, 0) < Version::new(1, 10, 0));
    assert!(Version::new(1, 2, 3) < Version::new(1, 2, 10));
    assert!(Version::new(1, 2, 3) >= Version::new(1, 2, 3));
}

#[test]
fn version_single_component() {
    assert_eq!(Version::parse("7").unwrap(), Version::new(7, 0, 0));
}

#[test]
fn version_three_components() {
    assert_eq!(Version::parse("1.2.3").unwrap(), Version::new(1, 2, 3));
}

#[test]
fn version_extra_components_rejected() {
    assert!(Version::parse("1.2.3.4").is_err());
    assert!(Version::parse("1.2.3.").is_err());
}

#[test]
fn version_empty_text_rejected() {
    assert!(Version::parse("").is_err());
}

#[test]
fn version_trailing_dot_rejected() {
    assert!(Version::parse("1.").is_err());
}

#[test]
fn version_non_digit_rejected() {
    assert!(Version::parse("abc").is_err());
    assert!(Version::parse("1.x").is_err());
}

#[test]
fn version_overflowing_component_rejected() {
    assert!(Version::parse("99999999999999999999").is_err());
    assert_eq!(
        Version::parse("9223372036854775807").unwrap(),
        Version::new(9223372036854775807, 0, 0)
    );
    assert!(Version::parse("9223372036854775808").is_err());
}

#[test]
fn dependency_plain_require() {
    let d = Dependency::parse("some-mod").unwrap();
    assert_eq!(d.mod_id, "some-mod");
    assert_eq!(d.version, None);
    assert_eq!(d.dependency_type, DependencyType::Require);
}

#[test]
fn dependency_with_minimum_version() {
    let d = Dependency::parse("some-mod >= 1.2").unwrap();
    assert_eq!(d.mod_id, "some-mod");
    assert_eq!(d.version, Some(Version::new(1, 2, 0)));
    assert_eq!(d.dependency_type, DependencyType::Require);
}

#[test]
fn dependency_conflict_marker() {
    let d = Dependency::parse("! other-mod").unwrap();
    assert_eq!(d.mod_id, "other-mod");
    assert_eq!(d.dependency_type, DependencyType::Conflict);
}

#[test]
fn dependency_optional_marker() {
    let d = Dependency::parse("?opt-mod >= 0.4.1").unwrap();
    assert_eq!(d.mod_id, "opt-mod");
    assert_eq!(d.version, Some(Version::new(0, 4, 1)));
    assert_eq!(d.dependency_type, DependencyType::Optional);
}

#[test]
fn dependency_parentheses_and_tilde_stripped() {
    let d = Dependency::parse("(? load-order ~)").unwrap();
    assert_eq!(d.mod_id, "load-order");
    assert_eq!(d.dependency_type, DependencyType::Optional);

    let d2 = Dependency::parse("(base >= 1.1)").unwrap();
    assert_eq!(d2.mod_id, "base");
    assert_eq!(d2.version, Some(Version::new(1, 1, 0)));
    assert_eq!(d2.dependency_type, DependencyType::Require);
}

#[test]
fn dependency_two_separators_whole_text_is_id() {
    let d = Dependency::parse("a >= 1 >= 2").unwrap();
    assert_eq!(d.mod_id, "a >= 1 >= 2");
    assert_eq!(d.version, None);
}

#[test]
fn dependency_bad_version_rejected() {
    assert!(Dependency::parse("mod >= nope").is_err());
    assert!(Dependency::parse("mod >= ").is_err());
}

#[test]
fn dependency_whitespace_trimmed() {
    let d = Dependency::parse("   spaced-mod   >=   2.0.1  ").unwrap();
    assert_eq!(d.mod_id, "spaced-mod");
    assert_eq!(d.version, Some(Version::new(2, 0, 1)));
}

#[test]
fn dependency_empty_text_is_empty_require() {
    let d = Dependency::parse("").unwrap();
    assert_eq!(d.mod_id, "");
    assert_eq!(d.version, None);
    assert_eq!(d.dependency_type, DependencyType::Require);
}

#[test]
fn dependency_marker_alone() {
    let d = Dependency::parse("?").unwrap();
    assert_eq!(d.mod_id, "");
    assert_eq!(d.dependency_type, DependencyType::Optional);
}

#[test]
fn dependency_tilde_after_parentheses() {
    let d = Dependency::parse("(mod-a >= 1.2)~").unwrap();
    assert_eq!(d.mod_id, "mod-a");
    assert_eq!(d.version, Some(Version::new(1, 2, 0)));
    assert_eq!(d.dependency_type, DependencyType::Require);
}

#[test]
fn dependency_markers_stand_in_their_places() {
    // the marker is read only at the front, and `~` is dropped only at the
    // back: elsewhere those characters belong to the id
    let d = Dependency::parse("!x~").unwrap();
    assert_eq!(d.mod_id, "x");
    assert_eq!(d.dependency_type, DependencyType::Conflict);

    let d2 = Dependency::parse("foo~bar").unwrap();
    assert_eq!(d2.mod_id, "foo~bar");
    assert_eq!(d2.dependency_type, DependencyType::Require);
}

#[test]
fn dependency_unicode_whitespace_trimmed() {
    let d = Dependency::parse("\u{00A0}mod-a\u{2003} >= 1.0\u{00A0}").unwrap();
    assert_eq!(d.mod_id, "mod-a");
    assert_eq!(d.version, Some(Version::new(1, 0, 0)));
}

#[test]
fn game_content_ids() {
    assert!(fmods::utils::is_mod_game_content("base"));
    assert!(fmods::utils::is_mod_game_content("quality"));
    assert!(fmods::utils::is_mod_game_content("elevated-rails"));
    assert!(fmods::utils::is_mod_game_content("space-age"));
    assert!(!fmods::utils::is_mod_game_content("Base"));
    assert!(!fmods::utils::is_mod_game_content("krastorio2"));
}
