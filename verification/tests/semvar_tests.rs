use tyr::semvar::{
    _combine_dependency_and_version, coerce, convert_to_version, dependency_needs_install,
    extract_right_side, module_dir, resolve_semvar_range, split_package_version, SemverError,
    VersionChoice, PreId,
};

fn pair(a: &str, b: &str) -> (String, String) {
    (a.to_string(), b.to_string())
}

fn keys(v: &[&str]) -> Vec<String> {
    v.iter().map(|s| s.to_string()).collect()
}

#[test]
fn split_plain_name_is_latest() {
    assert_eq!(split_package_version("react"), pair("react", "latest"));
}

#[test]
fn split_major_version_gains_minor_and_patch() {
    assert_eq!(split_package_version("react@18"), pair("react", "18.0.0"));
}

#[test]
fn split_keeps_range() {
    assert_eq!(split_package_version("react@^18.2.0"), pair("react", "^18.2.0"));
}

#[test]
fn split_scoped_name() {
    assert_eq!(split_package_version("@types/node@20"), pair("@types/node", "20.0.0"));
    assert_eq!(split_package_version("@types/node@~20.1"), pair("@types/node", "~20.1"));
}

#[test]
fn split_scoped_name_without_version() {
    assert_eq!(split_package_version("@types/node"), pair("@types/node", "latest"));
}

#[test]
fn split_at_first_at_sign_only() {
    assert_eq!(split_package_version("a@b@c"), pair("a", "b@c"));
    assert_eq!(split_package_version("pkg@"), pair("pkg", ""));
}

#[test]
fn split_dependency_request_with_json_value() {
    let request = format!("{}@{}", "is-odd", "\"^0.1.2\"");
    assert_eq!(split_package_version(&request), pair("is-odd", "\"^0.1.2\""));
}

#[test]
fn convert_to_version_cases() {
    assert_eq!(convert_to_version("7"), "7.0.0");
    assert_eq!(convert_to_version("1.2"), "1.2");
    assert_eq!(convert_to_version(""), "");
    assert_eq!(convert_to_version("18"), "18.0.0");
    assert_eq!(convert_to_version("^18"), "^18");
    assert_eq!(convert_to_version("1.2.3"), "1.2.3");
    assert_eq!(convert_to_version("^1"), "^1");
}

#[test]
fn extract_right_side_cases() {
    assert_eq!(extract_right_side("react: ^1.0.0"), "^1.0.0");
    assert_eq!(extract_right_side("^1.0.0"), "^1.0.0");
    assert_eq!(extract_right_side("a:  b c  "), "b c");
    assert_eq!(extract_right_side("a:b:c"), "b:c");
}

#[test]
fn combine_dependency_and_version_cases() {
    assert_eq!(_combine_dependency_and_version(" react @ 1.0.0 "), "react@1.0.0");
    assert_eq!(_combine_dependency_and_version("react"), "react");
    assert_eq!(_combine_dependency_and_version("a@b@c"), "a@b@c");
}

#[test]
fn resolve_selects_greatest_satisfying_version() {
    let ks = keys(&["1.0.0", "2.0.0", "1.5.0", "1.2.0"]);
    assert!(matches!(resolve_semvar_range(">=1.0.0", &ks), VersionChoice::Selected(1)));
    assert!(matches!(resolve_semvar_range("^1.0.0", &ks), VersionChoice::Selected(2)));
    assert!(matches!(resolve_semvar_range("<1.3.0", &ks), VersionChoice::Selected(3)));
    assert!(matches!(resolve_semvar_range("1.0.0", &ks), VersionChoice::Selected(0)));
}

#[test]
fn resolve_takes_first_of_equal_versions() {
    let ks = keys(&["0.9.0", "1.0.0+a", "1.0.0+b"]);
    assert!(matches!(resolve_semvar_range("^1.0.0", &ks), VersionChoice::Selected(1)));
}

#[test]
fn resolve_selects_in_range_versions_only() {
    let ks = keys(&["2.0.0", "1.2.0", "1.0.0"]);
    assert!(matches!(resolve_semvar_range("^1.0.0", &ks), VersionChoice::Selected(1)));
    assert!(matches!(resolve_semvar_range("\"^1.0.0\"", &ks), VersionChoice::Selected(1)));
    assert!(matches!(resolve_semvar_range("lodash: ~1.0.0", &ks), VersionChoice::Selected(2)));
}

#[test]
fn resolve_without_match() {
    let ks = keys(&["2.0.0", "1.2.0"]);
    assert!(matches!(resolve_semvar_range("^3.0.0", &ks), VersionChoice::NoneSatisfies));
    assert!(matches!(resolve_semvar_range("^3.0.0", &Vec::new()), VersionChoice::NoneSatisfies));
}

#[test]
fn resolve_reports_unparsable_version_and_range() {
    let ks = keys(&["1.0.0", "not-a-version"]);
    assert!(matches!(resolve_semvar_range("^2.0.0", &ks), VersionChoice::InvalidVersion(1)));
    assert!(matches!(resolve_semvar_range("foo", &ks), VersionChoice::InvalidRange));
}

#[test]
fn needs_install_cases() {
    assert!(matches!(dependency_needs_install("^1.0.0", Some("\"1.5.0\"".to_string())), Ok(false)));
    assert!(matches!(dependency_needs_install(" \"^2.0.0\" ", Some("\"1.5.0\"".to_string())), Ok(true)));
    assert!(matches!(dependency_needs_install("^2.0.0", None), Ok(true)));
    assert!(matches!(
        dependency_needs_install("^2.0.0", Some("\"banana\"".to_string())),
        Err(SemverError::InvalidVersion)
    ));
    assert!(matches!(
        dependency_needs_install("foo", Some("\"1.0.0\"".to_string())),
        Err(SemverError::InvalidRange)
    ));
}

#[test]
fn coerce_parses_only_versions() {
    let k = coerce("1.2.3-beta.4", None).unwrap();
    assert_eq!((k.major, k.minor, k.patch), (1, 2, 3));
    assert!(matches!(&k.pre[..], [PreId::Alpha(b), PreId::Numeric(4)] if b == "beta"));
    let k = coerce("10.0.7", None).unwrap();
    assert_eq!((k.major, k.minor, k.patch, k.pre.len()), (10, 0, 7, 0));
    assert!(coerce("7", None).is_none());
    assert!(coerce("banana", None).is_none());
}

#[test]
fn module_dir_path() {
    assert_eq!(module_dir("react"), "./node_modules/react");
}
