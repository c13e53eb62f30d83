use tyr::lockfile::{lockfile_install_difference, LockEntry};
use tyr::installer::{
    dependency_requests, plan_package_install, InstallError, NextDependencies, RegistryDocument,
    RegistryVersion, Source,
};
use tyr::manifest::{
    plan_dependency_update, script_command, shell_invocation, DependencyUpdate, Project, ScriptError,
};
use tyr::semvar::split_package_version;
use tyr::table::Table;

fn table(entries: &[(&str, &str)]) -> Table<String> {
    let mut t = Table::new();
    for (k, v) in entries {
        t.insert(k.to_string(), v.to_string());
    }
    t
}

fn sorted(t: &Table<String>) -> Vec<(String, String)> {
    let mut v = t.entries.clone();
    v.sort();
    v
}

#[test]
fn dependency_list_created() {
    match plan_dependency_update(None, "\"is-even\"", "\"1.0.0\"", false) {
        DependencyUpdate::Write(t) => assert_eq!(sorted(&t), vec![("is-even".to_string(), "1.0.0".to_string())]),
        DependencyUpdate::Unchanged => panic!("expected a write"),
    }
}

#[test]
fn dependency_list_updated() {
    let existing = table(&[("a", "1.0.0"), ("is-even", "0.9.0")]);
    match plan_dependency_update(Some(existing), "\"is-even\"", "\"1.0.0\"", true) {
        DependencyUpdate::Write(t) => assert_eq!(
            sorted(&t),
            vec![("a".to_string(), "1.0.0".to_string()), ("is-even".to_string(), "1.0.0".to_string())]
        ),
        DependencyUpdate::Unchanged => panic!("expected a write"),
    }
}

#[test]
fn dependency_list_left_alone_without_update() {
    let existing = table(&[("a", "1.0.0")]);
    assert!(matches!(plan_dependency_update(Some(existing), "\"b\"", "\"2.0.0\"", false), DependencyUpdate::Unchanged));
}

#[test]
fn script_lookup() {
    let mut scripts: Table<Option<String>> = Table::new();
    scripts.insert("dev".to_string(), Some("node index.js".to_string()));
    scripts.insert("odd".to_string(), None);
    assert_eq!(script_command(Some(&scripts), "dev").ok().unwrap(), "node index.js");
    assert!(matches!(script_command(Some(&scripts), "odd"), Err(ScriptError::NotText)));
    assert_eq!(script_command(None, "dev").ok().unwrap(), "");
}

#[test]
fn shell_per_platform() {
    let (p, a) = shell_invocation(true, "npm test");
    assert_eq!(p, "cmd");
    assert_eq!(a, vec!["/C".to_string(), "npm test".to_string()]);
    let (p, a) = shell_invocation(false, "npm test");
    assert_eq!(p, "sh");
    assert_eq!(a, vec!["-c".to_string(), "npm test".to_string()]);
}

#[test]
fn project_from_answers() {
    let p = Project::from_answers(" my-app ", "1.0.0 ", " An app", " Index.JS ", " https://x ", " Me ", " mit ");
    assert_eq!(p.name, "my-app");
    assert_eq!(p.version, "1.0.0");
    assert_eq!(p.description, "An app");
    assert_eq!(p.entry_point, "index.js");
    assert_eq!(p.repo_url, "https://x");
    assert_eq!(p.author, "Me");
    assert_eq!(p.license, "MIT");
    assert!(p.private);
}

#[test]
fn project_new_keeps_fields() {
    let p = Project::new_project(
        "a".into(), "1".into(), "d".into(), "e".into(), "r".into(), "au".into(), "l".into(), false,
    );
    assert_eq!(p.name, "a");
    assert_eq!(p.license, "l");
    assert!(!p.private);
}

fn version(v: &str, dist: bool, deps: bool) -> RegistryVersion {
    RegistryVersion { version: v.to_string(), has_dist: dist, has_dependencies: deps }
}

#[test]
fn plan_single_version_document() {
    let doc = RegistryDocument { has_dist: true, has_dependencies: true, versions: None };
    let plan = plan_package_install("latest", &doc).ok().unwrap();
    assert!(matches!(plan.metadata, Source::Document));
    assert!(matches!(plan.next, NextDependencies::From(Source::Document)));
    let doc = RegistryDocument { has_dist: true, has_dependencies: false, versions: None };
    assert!(matches!(plan_package_install("latest", &doc).ok().unwrap().next, NextDependencies::Completed));
    let doc = RegistryDocument { has_dist: false, has_dependencies: false, versions: None };
    assert!(matches!(plan_package_install("latest", &doc), Err(InstallError::MissingDist)));
}

#[test]
fn plan_from_versions() {
    let doc = RegistryDocument {
        has_dist: false,
        has_dependencies: false,
        versions: Some(vec![version("1.0.0", true, false), version("1.1.0", true, true)]),
    };
    let plan = plan_package_install("^1.1.0", &doc).ok().unwrap();
    assert!(matches!(plan.metadata, Source::Version(1)));
    assert!(matches!(plan.next, NextDependencies::From(Source::Version(1))));
    let plan = plan_package_install("~1.0.0", &doc).ok().unwrap();
    assert!(matches!(plan.metadata, Source::Version(0)));
    assert!(matches!(plan.next, NextDependencies::Completed));
    assert!(matches!(plan_package_install("^2.0.0", &doc), Err(InstallError::NoMatchingVersion)));
    assert!(matches!(plan_package_install("foo", &doc), Err(InstallError::InvalidRange)));
}

#[test]
fn plan_version_without_dist() {
    let doc = RegistryDocument {
        has_dist: true,
        has_dependencies: true,
        versions: Some(vec![version("1.0.0", false, true)]),
    };
    assert!(matches!(plan_package_install("1.0.0", &doc), Err(InstallError::MissingDist)));
}

#[test]
fn requests_skip_status_and_split_back() {
    let deps = vec![
        ("is-odd".to_string(), "\"^0.1.2\"".to_string()),
        ("status".to_string(), "\"completed\"".to_string()),
        ("@scope/x".to_string(), "\"2\"".to_string()),
    ];
    let requests = dependency_requests(&deps);
    assert_eq!(requests, vec!["is-odd@\"^0.1.2\"".to_string(), "@scope/x@\"2\"".to_string()]);
    assert_eq!(split_package_version(&requests[0]), ("is-odd".to_string(), "\"^0.1.2\"".to_string()));
    assert_eq!(split_package_version(&requests[1]), ("@scope/x".to_string(), "\"2\"".to_string()));
}

#[test]
fn added_package_is_not_reported_by_install() {
    let entry = LockEntry::new("\"is-even\"", "\"1.0.0\"", "\"https://r/is-even-1.0.0.tgz\"", "\"sha512-x\"", &table(&[("status", "completed")]));
    let lock = entry.format_for_lock_file();
    let written = match plan_dependency_update(None, "\"is-even\"", "\"1.0.0\"", true) {
        DependencyUpdate::Write(t) => t,
        DependencyUpdate::Unchanged => panic!("expected a write"),
    };
    let manifest: Vec<(String, Option<String>)> =
        written.entries.iter().map(|(k, v)| (k.clone(), Some(v.clone()))).collect();
    assert!(lockfile_install_difference(&manifest, &lock).is_empty());
}
