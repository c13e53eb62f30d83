use tyr::registry::{fetch_notice, FetchNotice};
use tyr::registry::{
    is_semver_number, next_fetch_action, parse_retry_after, registry_url, remove_non_numbers,
    tarball_retry_delay, FetchAction, FetchEvent, MAX_FETCH_ATTEMPTS,
};

#[test]
fn version_path_cases() {
    assert_eq!(remove_non_numbers("latest"), "latest");
    assert_eq!(remove_non_numbers("^1.2.3"), "1.2.3");
    assert_eq!(remove_non_numbers("v1.x"), "1.");
}

#[test]
fn semver_number_cases() {
    assert_eq!(is_semver_number("1.2.3"), true);
    assert_eq!(is_semver_number("\"1.2.3\""), true);
    assert_eq!(is_semver_number("latest"), true);
    assert_eq!(is_semver_number("^1.2.3"), false);
    assert_eq!(is_semver_number("1.2"), false);
    assert_eq!(is_semver_number("1.2.3\n"), false);
    assert_eq!(is_semver_number("10.20.30"), true);
    assert_eq!(is_semver_number("1..3"), false);
}

#[test]
fn url_for_latest() {
    assert_eq!(registry_url("react", "latest"), "https://registry.npmjs.org/react/latest");
}

#[test]
fn url_encodes_scoped_names() {
    assert_eq!(
        registry_url("@types/node", "\"20.1.0\""),
        "https://registry.npmjs.org/%40types%2Fnode/20.1.0"
    );
    assert_eq!(registry_url("a b*c", "1.0.0"), "https://registry.npmjs.org/a+b*c/1.0.0");
}

#[test]
fn url_for_range_fetches_whole_document() {
    assert_eq!(registry_url("@types/node", "^18.0.0"), "https://registry.npmjs.org/@types/node/");
}

#[test]
fn retry_after_parsing() {
    assert_eq!(parse_retry_after("120"), Some(120));
    assert_eq!(parse_retry_after("+5"), Some(5));
    assert_eq!(parse_retry_after(""), None);
    assert_eq!(parse_retry_after("+"), None);
    assert_eq!(parse_retry_after("-1"), None);
    assert_eq!(parse_retry_after("1x"), None);
    assert_eq!(parse_retry_after(" 1"), None);
    assert_eq!(parse_retry_after("18446744073709551615"), Some(u64::MAX));
    assert_eq!(parse_retry_after("18446744073709551616"), None);
    for s in ["0", "7", "+0042", "99999", "1x", "", "abc"] {
        assert_eq!(parse_retry_after(s), s.parse::<u64>().ok());
    }
}

fn response(status: u16, retry_after: Option<u64>) -> FetchEvent {
    FetchEvent::Response { status, retry_after }
}

#[test]
fn fetch_accepts_ok_answers() {
    assert!(matches!(next_fetch_action(1, &response(200, None)), FetchAction::Accept));
    assert!(matches!(next_fetch_action(MAX_FETCH_ATTEMPTS, &response(200, Some(3))), FetchAction::Accept));
}

#[test]
fn fetch_retries_with_waits() {
    assert!(matches!(next_fetch_action(1, &response(503, Some(3))), FetchAction::Retry { wait_secs: Some(3) }));
    assert!(matches!(next_fetch_action(2, &response(429, None)), FetchAction::Retry { wait_secs: None }));
    assert!(matches!(next_fetch_action(3, &response(404, Some(9))), FetchAction::Retry { wait_secs: Some(5) }));
    assert!(matches!(next_fetch_action(4, &FetchEvent::TransportError), FetchAction::Retry { wait_secs: Some(5) }));
}

#[test]
fn fetch_gives_up_after_five_requests() {
    assert_eq!(MAX_FETCH_ATTEMPTS, 5);
    assert!(matches!(next_fetch_action(5, &FetchEvent::TransportError), FetchAction::GiveUp { wait_secs: Some(5), error_status: 500 }));
    assert!(matches!(next_fetch_action(5, &response(405, Some(1))), FetchAction::GiveUp { wait_secs: Some(1), error_status: 500 }));
}

#[test]
fn tarball_delay() {
    assert_eq!(tarball_retry_delay(Some(12)), 12);
    assert_eq!(tarball_retry_delay(None), 5);
}

#[test]
fn fetch_notices() {
    assert!(matches!(fetch_notice(&response(503, Some(4))), FetchNotice::RetryingAfter(4)));
    assert!(matches!(fetch_notice(&response(429, None)), FetchNotice::Silent));
    assert!(matches!(fetch_notice(&response(301, None)), FetchNotice::FailedResponse));
    assert!(matches!(fetch_notice(&FetchEvent::TransportError), FetchNotice::TransportFailure));
}
