use tyr::installer::{plan_from_registry_text, InstallError, NextDependencies, Source};
use tyr::manifest::{
    installed_version, manifest_dependencies, manifest_dependency_table, manifest_scripts, script_command,
    unpacked_dependencies, ManifestError,
};

const DOCUMENT: &str = r#"{
  "name": "is-even",
  "versions": {
    "0.1.0": {"name": "is-even", "version": "0.1.0", "dist": {"tarball": "https://r/is-even-0.1.0.tgz", "integrity": "sha512-a"}},
    "1.0.0": {"name": "is-even", "version": "1.0.0", "dist": {"tarball": "https://r/is-even-1.0.0.tgz", "integrity": "sha512-b"},
              "dependencies": {"is-odd": "^0.1.2"}},
    "0.9.0": {"name": "is-even", "version": "0.9.0", "dist": {"tarball": "https://r/is-even-0.9.0.tgz", "integrity": "sha512-c"}}
  }
}"#;

#[test]
fn answer_with_versions_installs_the_greatest_in_range() {
    let inst = plan_from_registry_text("^1.0.0", DOCUMENT).ok().unwrap();
    assert!(matches!(inst.plan.metadata, Source::Version(_)));
    assert!(matches!(inst.plan.next, NextDependencies::From(Source::Version(_))));
    assert_eq!(inst.name_json, "\"is-even\"");
    assert_eq!(inst.name, "is-even");
    assert_eq!(inst.version_json, "\"1.0.0\"");
    assert_eq!(inst.tarball, "https://r/is-even-1.0.0.tgz");
    assert_eq!(inst.integrity_json, "\"sha512-b\"");
    assert_eq!(inst.next, vec![("is-odd".to_string(), "\"^0.1.2\"".to_string())]);
    assert_eq!(inst.lock_dependencies.entries, vec![("is-odd".to_string(), "^0.1.2".to_string())]);
}

#[test]
fn answer_without_dependencies_is_completed() {
    let inst = plan_from_registry_text("<1.0.0", DOCUMENT).ok().unwrap();
    assert_eq!(inst.version_json, "\"0.9.0\"");
    assert!(matches!(inst.plan.next, NextDependencies::Completed));
    assert_eq!(inst.next, vec![("status".to_string(), "\"completed\"".to_string())]);
    assert_eq!(inst.lock_dependencies.entries, vec![("status".to_string(), "completed".to_string())]);
}

#[test]
fn single_version_answer() {
    let text = r#"{"name":"a","version":"2.0.0","dist":{"tarball":"https://r/a.tgz","integrity":"sha1-x"},"dependencies":{"b":"1.0.0"}}"#;
    let inst = plan_from_registry_text("2.0.0", text).ok().unwrap();
    assert!(matches!(inst.plan.metadata, Source::Document));
    assert_eq!(inst.tarball, "https://r/a.tgz");
    assert_eq!(inst.next, vec![("b".to_string(), "\"1.0.0\"".to_string())]);
}

#[test]
fn unusable_answers_are_errors() {
    assert!(matches!(plan_from_registry_text("1.0.0", "not json"), Err(InstallError::InvalidAnswer)));
    assert!(matches!(plan_from_registry_text("1.0.0", r#"{"versions": 3}"#), Err(InstallError::InvalidAnswer)));
    assert!(matches!(plan_from_registry_text("1.0.0", r#"{"versions": {"1.0.0": 3}}"#), Err(InstallError::InvalidAnswer)));
    assert!(matches!(plan_from_registry_text("^5.0.0", DOCUMENT), Err(InstallError::NoMatchingVersion)));
    assert!(matches!(plan_from_registry_text("1.0.0", r#"{"name":"a"}"#), Err(InstallError::MissingDist)));
    assert!(matches!(
        plan_from_registry_text("1.0.0", r#"{"name":"a","version":"1.0.0","dist":{"integrity":"x"}}"#),
        Err(InstallError::MissingMetadata)
    ));
    assert!(matches!(
        plan_from_registry_text(
            "1.0.0",
            r#"{"name":"a","version":"1.0.0","dist":{"tarball":"t","integrity":"x"},"dependencies":{"b":1}}"#
        ),
        Err(InstallError::InvalidDependencies)
    ));
}

#[test]
fn manifest_parts() {
    let text = r#"{"name":"app","dependencies":{"a":"1.0.0","b":{"x":1}},"scripts":{"dev":"node i.js","n":2}}"#;
    let mut deps = manifest_dependencies(text).ok().unwrap().unwrap();
    deps.sort();
    assert_eq!(deps, vec![("a".to_string(), Some("1.0.0".to_string())), ("b".to_string(), None)]);
    let scripts = manifest_scripts(text).ok().unwrap().unwrap();
    assert_eq!(script_command(Some(&scripts), "dev").ok().unwrap(), "node i.js");
    assert!(script_command(Some(&scripts), "n").is_err());
    assert!(matches!(manifest_dependency_table(text), Err(ManifestError::NotText)));
    assert!(manifest_dependencies(r#"{"name":"app"}"#).ok().unwrap().is_none());
    assert!(matches!(manifest_dependencies("[]"), Err(ManifestError::NotAnObject)));
    assert!(matches!(manifest_dependencies(r#"{"dependencies":"x"}"#), Err(ManifestError::MemberNotAnObject)));
}

#[test]
fn installed_package_parts() {
    assert_eq!(installed_version(r#"{"version":"1.2.3"}"#).ok().unwrap(), Some("\"1.2.3\"".to_string()));
    assert_eq!(installed_version(r#"{"name":"x"}"#).ok().unwrap(), None);
    let deps = unpacked_dependencies(r#"{"name":"x","dependencies":{"y":"1"}}"#).ok().unwrap();
    assert_eq!(deps, vec![("y".to_string(), "\"1\"".to_string())]);
    let all = unpacked_dependencies(r#"{"name":"x"}"#).ok().unwrap();
    assert_eq!(all, vec![("name".to_string(), "\"x\"".to_string())]);
}
