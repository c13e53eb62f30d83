use tyr::semvar::{resolve_semvar_range, VersionChoice};

fn keys(v: &[&str]) -> Vec<String> {
    v.iter().map(|s| s.to_string()).collect()
}

fn selected(range: &str, ks: &[&str]) -> Option<usize> {
    match resolve_semvar_range(range, &keys(ks)) {
        VersionChoice::Selected(i) => Some(i),
        _ => None,
    }
}

#[test]
fn numbers_order_by_value_not_text() {
    assert_eq!(selected("^1.0.0", &["1.9.3", "1.10.0", "1.2.0"]), Some(1));
    assert_eq!(selected(">=0.1.0", &["0.9.0", "0.10.0", "0.2.0"]), Some(1));
}

#[test]
fn release_is_above_its_pre_releases() {
    assert_eq!(selected(">=1.0.0-alpha", &["1.0.0-rc.1", "1.0.0", "1.0.0-beta"]), Some(1));
}

#[test]
fn pre_release_identifiers_order_in_turn() {
    // Numeric identifiers compare by value and sit below alphanumeric ones;
    // a longer list that begins with a shorter one is above it.
    assert_eq!(selected(">=1.0.0-alpha <1.0.0", &["1.0.0-alpha.9", "1.0.0-alpha.10", "1.0.0-alpha"]), Some(1));
    assert_eq!(selected(">=1.0.0-alpha <1.0.0", &["1.0.0-alpha.1", "1.0.0-alpha.beta", "1.0.0-alpha"]), Some(1));
    assert_eq!(selected(">=1.0.0-alpha <1.0.0", &["1.0.0-alpha", "1.0.0-alpha.1"]), Some(1));
    assert_eq!(selected(">=1.0.0-alpha <1.0.0", &["1.0.0-beta", "1.0.0-alpha.99"]), Some(0));
}
