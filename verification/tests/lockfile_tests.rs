use tyr::table::Table;
use tyr::lockfile::{
    flatten_packages, lockfile_install_difference, parse_lock_file, parse_package_data,
    remove_non_numbers, symmetric_difference, LockEntry,
};

fn strings(v: &[&str]) -> Vec<String> {
    v.iter().map(|s| s.to_string()).collect()
}

fn deps(entries: &[(&str, &str)]) -> Table<String> {
    let mut t = Table::new();
    for (k, v) in entries {
        t.insert(k.to_string(), v.to_string());
    }
    t
}

fn sorted(mut v: Vec<String>) -> Vec<String> {
    v.sort();
    v
}

fn is_even_entry() -> LockEntry {
    LockEntry::new(
        "\"is-even\"",
        "\"1.0.0\"",
        "\"https://registry.npmjs.org/is-even/-/is-even-1.0.0.tgz\"",
        "\"sha512-abc\"",
        &deps(&[("is-odd", "^0.1.2")]),
    )
}

#[test]
fn entry_text_is_the_lock_format() {
    let e = is_even_entry();
    let expected = format!(
        "{}: \n version {}\n  resolved {}\n  integrity {}\n dependencies \n {} \n \n",
        "is-even",
        "1.0.0",
        "https://registry.npmjs.org/is-even/-/is-even-1.0.0.tgz",
        "sha512-abc",
        "{\"is-odd\":\"^0.1.2\"}"
    );
    assert_eq!(e.format_for_lock_file(), expected);
}

#[test]
fn entry_fields_lose_quotes() {
    let e = LockEntry::new(
        "\"is-even\"",
        "\"1.0.0\"",
        "\"https://r/t.tgz\"",
        "\"sha512-x\"",
        &deps(&[("is-odd", "^0.1.2")]),
    );
    let text = e.format_for_lock_file();
    let expected = [
        "is-even: ",
        " version 1.0.0",
        "  resolved https://r/t.tgz",
        "  integrity sha512-x",
        " dependencies ",
        " {\"is-odd\":\"^0.1.2\"} ",
        " ",
        "",
    ]
    .join("\n");
    assert_eq!(text, expected);
    assert_eq!(text.chars().count(), 112);
}

#[test]
fn entry_name_loses_quotes() {
    let e = LockEntry::new("\"@scope/pk\"g\"", "v", "r", "i", &deps(&[]));
    assert_eq!(e.name, "@scope/pkg");
}

#[test]
fn entry_without_dependencies_writes_empty_object() {
    let e = LockEntry::new("\"a\"", "\"1.0.0\"", "r", "i", &deps(&[("status", "completed")]));
    assert_eq!(e.dependencies, "{}");
}

#[test]
fn entry_reads_back() {
    let text = is_even_entry().format_for_lock_file();
    let packages = parse_lock_file(&text);
    assert_eq!(packages.entries.len(), 1);
    let (name, pkg) = &packages.entries[0];
    assert_eq!(name, "is-even");
    assert_eq!(pkg.version, "1.0.0");
    assert_eq!(pkg.dependencies.entries.len(), 1);
    assert_eq!(pkg.dependencies.entries[0].0, "is-odd");
    assert_eq!(pkg.dependencies.entries[0].1, "0.1.2");
}

#[test]
fn appended_entries_read_back_and_later_wins() {
    let mut text = is_even_entry().format_for_lock_file();
    let other = LockEntry::new("\"is-odd\"", "\"0.1.2\"", "\"r\"", "\"i\"", &deps(&[("status", "completed")]));
    text.push_str(&other.format_for_lock_file());
    let again = LockEntry::new("\"is-even\"", "\"1.1.0\"", "\"r\"", "\"i\"", &deps(&[("status", "completed")]));
    text.push_str(&again.format_for_lock_file());
    let packages = parse_lock_file(&text);
    assert_eq!(packages.entries.len(), 2);
    let mut seen = packages
        .entries
        .iter()
        .map(|(n, p)| (n.clone(), p.version.clone(), p.dependencies.entries.len()))
        .collect::<Vec<_>>();
    seen.sort();
    assert_eq!(
        seen,
        vec![("is-even".to_string(), "1.1.0".to_string(), 0), ("is-odd".to_string(), "0.1.2".to_string(), 0)]
    );
}

#[test]
fn lines_before_any_name_belong_to_the_empty_name() {
    let packages = parse_lock_file("version 2.0\n");
    assert_eq!(packages.entries.len(), 1);
    assert_eq!(packages.entries[0].0, "");
    assert_eq!(packages.entries[0].1.version, "2.0");
}

#[test]
fn name_without_lines_is_not_recorded() {
    let packages = parse_lock_file("a:\nb:\n version 1\n");
    assert_eq!(packages.entries.len(), 1);
    assert_eq!(packages.entries[0].0, "b");
}

#[test]
fn package_data_reads_version_and_dependencies() {
    let p = parse_package_data("version \"1.0.0\"\nresolved x\ndependencies\n{\"a\":\"~1.2\",\"b\":\">=2.0.0\"}\n");
    assert_eq!(p.version, "1.0.0");
    let mut deps = p.dependencies.entries.clone();
    deps.sort();
    assert_eq!(deps, vec![("a".to_string(), "1.2".to_string()), ("b".to_string(), "2.0.0".to_string())]);
}

#[test]
fn package_data_skips_text_that_is_not_json() {
    let p = parse_package_data("dependencies\nnot json\n{\"a\": 1}\n");
    assert_eq!(p.version, "");
    assert!(p.dependencies.entries.is_empty());
}

#[test]
fn package_data_version_before_dependencies_only() {
    let p = parse_package_data("dependencies\nversion 3.0.0\n");
    assert_eq!(p.version, "");
}

#[test]
fn remove_non_numbers_keeps_digits_and_dots() {
    assert_eq!(remove_non_numbers("\"^1.2.3\""), "1.2.3");
    assert_eq!(remove_non_numbers("latest"), "");
}

#[test]
fn flatten_lists_packages_and_dependencies() {
    let packages = parse_lock_file(&is_even_entry().format_for_lock_file());
    assert_eq!(sorted(flatten_packages(&packages)), strings(&["is-even@1.0.0", "is-odd@0.1.2"]));
}

#[test]
fn symmetric_difference_cases() {
    let a = strings(&["x@1", "y@2", "x@1"]);
    let b = strings(&["y@2", "z@3"]);
    assert_eq!(sorted(symmetric_difference(&a, &b)), strings(&["x@1", "z@3"]));
    assert_eq!(sorted(symmetric_difference(&b, &a)), strings(&["x@1", "z@3"]));
    assert!(symmetric_difference(&a, &a).is_empty());
}

#[test]
fn install_difference_against_lock() {
    let lock = is_even_entry().format_for_lock_file();
    let manifest = vec![("is-even".to_string(), Some("1.0.0".to_string())), ("left-pad".to_string(), None)];
    let diff = sorted(lockfile_install_difference(&manifest, &lock));
    assert_eq!(diff, strings(&["is-odd@0.1.2", "left-pad@UNKNOWN"]));
}

#[test]
fn install_difference_empty_when_in_agreement() {
    let lock = LockEntry::new("\"a\"", "\"1.0.0\"", "\"r\"", "\"i\"", &deps(&[("status", "completed")])).format_for_lock_file();
    let manifest = vec![("a".to_string(), Some("1.0.0".to_string()))];
    assert!(lockfile_install_difference(&manifest, &lock).is_empty());
}

#[test]
fn flatten_keeps_every_string_in_package_order() {
    let mut text = LockEntry::new("\"a\"", "\"1.0.0\"", "\"r\"", "\"i\"", &deps(&[("x", "2.0.0")]))
        .format_for_lock_file();
    text.push_str(
        &LockEntry::new("\"b\"", "\"3.0.0\"", "\"r\"", "\"i\"", &deps(&[("x", "2.0.0")])).format_for_lock_file(),
    );
    let packages = parse_lock_file(&text);
    let flat = flatten_packages(&packages);
    assert_eq!(flat.len(), 4);
    assert_eq!(flat.iter().filter(|s| *s == "x@2.0.0").count(), 2);
    for (k, (name, pkg)) in packages.entries.iter().enumerate() {
        assert_eq!(flat[2 * k], format!("{}@{}", name, pkg.version));
        assert_eq!(flat[2 * k + 1], "x@2.0.0");
    }
}

#[test]
fn written_dependencies_read_back() {
    let mut text = String::new();
    for (name, version, ds) in [
        ("\"a\"", "\"1.0.0\"", vec![("b\"q", "^2.1.0"), ("c", "~3.0.1")]),
        ("\"d\"", "\"4.0.0\"", vec![("status", "completed")]),
        ("\"a\"", "\"1.2.0\"", vec![("e", ">=5.0.0\n")]),
    ] {
        text.push_str(&LockEntry::new(name, version, "\"r\"", "\"i\"", &deps(&ds)).format_for_lock_file());
    }
    let packages = parse_lock_file(&text);
    let mut seen: Vec<(String, String, Vec<(String, String)>)> = packages
        .entries
        .iter()
        .map(|(n, p)| {
            let mut d = p.dependencies.entries.clone();
            d.sort();
            (n.clone(), p.version.clone(), d)
        })
        .collect();
    seen.sort();
    assert_eq!(
        seen,
        vec![
            ("a".to_string(), "1.2.0".to_string(), vec![("e".to_string(), "5.0.0".to_string())]),
            ("d".to_string(), "4.0.0".to_string(), vec![]),
        ]
    );
}
