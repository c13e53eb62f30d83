//! Talking to the npm registry: the URL of a package request, and the
//! decisions taken on each answer while fetching (retry, wait, give up).
use vstd::prelude::*;
use crate::text::{all_digits, chars_eq, chars_of, is_digit, keep_version_chars, string_of, strip_char, strip_str, version_chars};

verus! {

/// The registry that packages are fetched from.
pub const NPM_REGISTRY_URL: &'static str = "https://registry.npmjs.org";

/// The version part of a registry URL: `latest` stays, any other text keeps
/// its digits and dots.
pub open spec fn spec_version_path(input: Seq<char>) -> Seq<char> {
    if input == "latest"@ {
        "latest"@
    } else {
        version_chars(input)
    }
}

/// The version part of a registry URL.
pub fn remove_non_numbers(input: &str) -> (r: String)
    ensures
        r@ == spec_version_path(input@),
{
    let cs = chars_of(input);
    let latest = chars_of("latest");
    if chars_eq(&cs, &latest) {
        String::from_str("latest")
    } else {
        string_of(&keep_version_chars(&cs))
    }
}

/// The pattern of a plain `major.minor.patch` version.
pub open spec fn semver_pattern() -> Seq<char> {
    "^\\d+\\.\\d+\\.\\d+$"@
}

/// A character that may stand in a run of digits: with `ascii_only`, an
/// ASCII digit; otherwise anything but a dot and the ASCII characters that
/// are no digits (the Unicode decimal digits that `\d` matches are among
/// these).
pub open spec fn run_char(c: char, ascii_only: bool) -> bool {
    if ascii_only {
        is_digit(c)
    } else {
        c != '.' && ((c as u32) < 0x80 ==> is_digit(c))
    }
}

/// Three non-empty runs of such characters, separated by single dots, and
/// nothing else.
pub open spec fn dotted_runs(t: Seq<char>, ascii_only: bool) -> bool {
    exists|i: int, j: int|
        #![trigger t[i], t[j]]
        0 < i && i + 1 < j && j + 1 < t.len() && t[i] == '.' && t[j] == '.'
            && forall|k: int| 0 <= k < t.len() && k != i && k != j ==> run_char(#[trigger] t[k], ascii_only)
}

/// Whether the `regex` crate finds a match of the pattern in the text.
pub uninterp spec fn regex_matches(pattern: Seq<char>, text: Seq<char>) -> bool;

/// Compiles the version pattern with `regex::Regex::new` (it compiles) and
/// asks `Regex::is_match` of `text`. Claimed: the answer is the named match
/// result, and, as the crate documents `^`, `$` (the ends of the text) and
/// `\d` (a Unicode decimal digit, the ASCII ones being `0` to `9`): three
/// runs of ASCII digits between two dots match, and a match is three
/// non-empty runs between two dots in which every ASCII character is a
/// digit.
#[verifier::external_body]
fn regex_is_match(pattern: &str, text: &str) -> (r: bool)
    requires
        pattern@ == semver_pattern(),
    ensures
        r == regex_matches(pattern@, text@),
        dotted_runs(text@, true) ==> r,
        r ==> dotted_runs(text@, false),
{
    regex::Regex::new(pattern).unwrap().is_match(text)
}

/// Whether a requested version is `latest` or a plain `major.minor.patch`
/// version (tested without its JSON quotes).
pub open spec fn spec_is_semver_number(value: Seq<char>) -> bool {
    value == "latest"@ || regex_matches(semver_pattern(), strip_char(value, '"'))
}

/// Whether a requested version can be fetched directly by its number.
pub fn is_semver_number(value: &str) -> (r: bool)
    ensures
        r == spec_is_semver_number(value@),
        dotted_runs(strip_char(value@, '"'), true) ==> r,
        r ==> value@ == "latest"@ || dotted_runs(strip_char(value@, '"'), false),
{
    let cs = chars_of(value);
    let latest = chars_of("latest");
    if chars_eq(&cs, &latest) {
        return true;
    }
    let unquoted = strip_str(value, '"');
    let pattern = "^\\d+\\.\\d+\\.\\d+$";
    proof {
        reveal_strlit("^\\d+\\.\\d+\\.\\d+$");
    }
    regex_is_match(pattern, unquoted.as_str())
}

/// A byte that form-urlencoding keeps as it is.
pub open spec fn byte_unchanged(b: u8) -> bool {
    ||| b == 0x2a
    ||| b == 0x2d
    ||| b == 0x2e
    ||| (0x30 <= b && b <= 0x39)
    ||| (0x41 <= b && b <= 0x5a)
    ||| b == 0x5f
    ||| (0x61 <= b && b <= 0x7a)
}

/// An upper-case hexadecimal digit.
pub open spec fn hex_upper(d: int) -> char {
    if d < 10 {
        (0x30 + d) as char
    } else {
        (0x41 + d - 10) as char
    }
}

/// One byte, form-urlencoded: kept, `+` for a space, or `%XX`.
pub open spec fn encoded_byte(b: u8) -> Seq<char> {
    if byte_unchanged(b) {
        seq![b as char]
    } else if b == 0x20 {
        seq!['+']
    } else {
        seq!['%', hex_upper((b / 16) as int), hex_upper((b % 16) as int)]
    }
}

/// Bytes, form-urlencoded (`application/x-www-form-urlencoded`).
pub open spec fn form_urlencoded(bytes: Seq<u8>) -> Seq<char>
    decreases bytes.len(),
{
    if bytes.len() == 0 {
        seq![]
    } else {
        form_urlencoded(bytes.drop_last()) + encoded_byte(bytes.last())
    }
}

/// `url::form_urlencoded::byte_serialize`, collected into a string.
/// Claimed (from the crate's source): each byte among `*-._`, digits and
/// ASCII letters is kept, a space becomes `+`, and any other byte becomes
/// `%` and two upper-case hexadecimal digits.
#[verifier::external_body]
fn form_urlencode(bytes: &[u8]) -> (r: String)
    ensures
        r@ == form_urlencoded(bytes@),
{
    url::form_urlencoded::byte_serialize(bytes).collect::<String>()
}

/// The URL that a package request is sent to: for `latest` or a plain
/// version, the registry, the form-urlencoded name and the version's
/// digits and dots; for a range, the registry and the name as it is, so
/// that the whole document (with every version) comes back.
pub open spec fn spec_registry_url(name: Seq<char>, version: Seq<char>) -> Seq<char> {
    if spec_is_semver_number(version) {
        NPM_REGISTRY_URL@ + "/"@ + form_urlencoded(vstd::utf8::encode_utf8(name)) + "/"@
            + spec_version_path(version)
    } else {
        NPM_REGISTRY_URL@ + "/"@ + name + "/"@
    }
}

/// The URL for fetching `name` at `version`.
pub fn registry_url(name: &str, version: &str) -> (r: String)
    ensures
        r@ == spec_registry_url(name@, version@),
{
    if is_semver_number(version) {
        let encoded = form_urlencode(name.as_bytes());
        let path = remove_non_numbers(version);
        let mut url = String::from_str(NPM_REGISTRY_URL);
        url.append("/");
        url.append(encoded.as_str());
        url.append("/");
        url.append(path.as_str());
        url
    } else {
        let mut url = String::from_str(NPM_REGISTRY_URL);
        url.append("/");
        url.append(name);
        url.append("/");
        url
    }
}

/// The value of a decimal text of digits.
pub open spec fn decimal_value(s: Seq<char>) -> nat
    decreases s.len(),
{
    if s.len() == 0 {
        0
    } else {
        decimal_value(s.drop_last()) * 10 + ((s.last() as nat) - ('0' as nat)) as nat
    }
}

/// What `u64::from_str` gives: an optional `+`, then one or more digits
/// whose value fits in a `u64`.
pub open spec fn spec_parse_u64(s: Seq<char>) -> Option<u64> {
    let d = if s.len() > 0 && s[0] == '+' { s.drop_first() } else { s };
    if d.len() > 0 && all_digits(d) && decimal_value(d) <= u64::MAX {
        Some(decimal_value(d) as u64)
    } else {
        None
    }
}

proof fn lemma_decimal_value_grows(s: Seq<char>, k: int)
    requires
        0 <= k <= s.len(),
        all_digits(s),
    ensures
        decimal_value(s.subrange(0, k)) <= decimal_value(s),
    decreases s.len(),
{
    if k < s.len() {
        assert(all_digits(s.drop_last())) by {
            assert forall|i: int| 0 <= i < s.drop_last().len() implies is_digit(#[trigger] s.drop_last()[i]) by {
                assert(s.drop_last()[i] == s[i]);
            }
        }
        lemma_decimal_value_grows(s.drop_last(), k);
        assert(s.drop_last().subrange(0, k) =~= s.subrange(0, k));
    } else {
        assert(s.subrange(0, k) =~= s);
    }
}

/// Reads a number of seconds, as a `Retry-After` header gives it.
pub fn parse_retry_after(header: &str) -> (r: Option<u64>)
    ensures
        r == spec_parse_u64(header@),
{
    let cs = chars_of(header);
    let start: usize = if cs.len() > 0 && cs[0] == '+' { 1 } else { 0 };
    let ghost d = if cs@.len() > 0 && cs@[0] == '+' { cs@.drop_first() } else { cs@ };
    assert(d =~= cs@.subrange(start as int, cs@.len() as int));
    if start >= cs.len() {
        return None;
    }
    let mut acc: u64 = 0;
    let mut i: usize = start;
    while i < cs.len()
        invariant
            cs@ == header@,
            d == (if cs@.len() > 0 && cs@[0] == '+' { cs@.drop_first() } else { cs@ }),
            start <= i <= cs@.len(),
            start < cs@.len(),
            d == cs@.subrange(start as int, cs@.len() as int),
            all_digits(cs@.subrange(start as int, i as int)),
            acc as nat == decimal_value(cs@.subrange(start as int, i as int)),
        decreases cs@.len() - i,
    {
        let c = cs[i];
        let ghost sub = cs@.subrange(start as int, i + 1);
        assert(sub.drop_last() =~= cs@.subrange(start as int, i as int));
        if !('0' <= c && c <= '9') {
            assert(d[i - start] == c);
            return None;
        }
        assert(all_digits(sub)) by {
            assert forall|j: int| 0 <= j < sub.len() implies is_digit(#[trigger] sub[j]) by {
                if j < sub.len() - 1 {
                    assert(sub[j] == cs@.subrange(start as int, i as int)[j]);
                }
            }
        }
        let digit: u64 = ((c as u32) - ('0' as u32)) as u64;
        assert(sub.last() == c);
        assert(decimal_value(sub) == decimal_value(cs@.subrange(start as int, i as int)) * 10 + digit);
        match acc.checked_mul(10) {
            Some(m) => match m.checked_add(digit) {
                Some(v) => {
                    acc = v;
                },
                None => {
                    proof {
                        if all_digits(d) {
                            assert(sub =~= d.subrange(0, (i + 1 - start) as int));
                            lemma_decimal_value_grows(d, (i + 1 - start) as int);
                        }
                    }
                    return None;
                },
            },
            None => {
                proof {
                    if all_digits(d) {
                        assert(sub =~= d.subrange(0, (i + 1 - start) as int));
                        lemma_decimal_value_grows(d, (i + 1 - start) as int);
                    }
                }
                return None;
            },
        }
        i = i + 1;
    }
    assert(cs@.subrange(start as int, i as int) =~= d);
    Some(acc)
}

/// The most tries made for one package.
pub const MAX_FETCH_ATTEMPTS: u32 = 5;

/// The status of the error reported when a fetch gives up.
pub const GIVE_UP_STATUS: u16 = 500;

/// What came back from one request to the registry.
pub enum FetchEvent {
    /// An answer with this status code and, if the header holds a number,
    /// the seconds that `Retry-After` asks to wait.
    Response { status: u16, retry_after: Option<u64> },
    /// No answer (a connection or transport error).
    TransportError,
}

/// What to do after a request.
pub enum FetchAction {
    /// Keep the answer.
    Accept,
    /// Wait the given seconds (if any), then send the request again.
    Retry { wait_secs: Option<u64> },
    /// Wait the given seconds (if any), then stop trying and report a
    /// failure with this status (the error carries the answer to one last
    /// request).
    GiveUp { wait_secs: Option<u64>, error_status: u16 },
}

/// How long to wait after an answer that is not kept: the `Retry-After`
/// seconds for 503, 429 and 405 (no wait without them), and five seconds
/// for any other status or for no answer.
pub open spec fn fetch_wait(event: FetchEvent) -> Option<u64> {
    match event {
        FetchEvent::Response { status, retry_after } => {
            if status == 503 || status == 429 || status == 405 {
                retry_after
            } else {
                Some(5)
            }
        },
        FetchEvent::TransportError => Some(5),
    }
}

/// The decision after the `attempt`-th request: a 200 answer is kept;
/// otherwise the request is sent again until the fifth has failed, after
/// which the fetch fails with status 500.
pub open spec fn spec_fetch_action(attempt: u32, event: FetchEvent) -> FetchAction {
    if event matches FetchEvent::Response { status, .. } && status == 200 {
        FetchAction::Accept
    } else if attempt < MAX_FETCH_ATTEMPTS {
        FetchAction::Retry { wait_secs: fetch_wait(event) }
    } else {
        FetchAction::GiveUp { wait_secs: fetch_wait(event), error_status: GIVE_UP_STATUS }
    }
}

/// Decides what to do after the `attempt`-th request (counting from one).
pub fn next_fetch_action(attempt: u32, event: &FetchEvent) -> (r: FetchAction)
    requires
        1 <= attempt <= MAX_FETCH_ATTEMPTS,
    ensures
        r == spec_fetch_action(attempt, *event),
{
    let wait = match event {
        FetchEvent::Response { status, retry_after } => {
            if *status == 200 {
                return FetchAction::Accept;
            }
            if *status == 503 || *status == 429 || *status == 405 {
                *retry_after
            } else {
                Some(5)
            }
        },
        FetchEvent::TransportError => Some(5),
    };
    if attempt < MAX_FETCH_ATTEMPTS {
        FetchAction::Retry { wait_secs: wait }
    } else {
        FetchAction::GiveUp { wait_secs: wait, error_status: GIVE_UP_STATUS }
    }
}

/// The retries are bounded: after the fifth try, whatever came back, the
/// answer is kept or the fetch gives up, reporting status 500.
pub proof fn lemma_fetch_attempts_bounded(event: FetchEvent)
    ensures
        !(spec_fetch_action(MAX_FETCH_ATTEMPTS, event) is Retry),
        spec_fetch_action(MAX_FETCH_ATTEMPTS, event) matches FetchAction::GiveUp { error_status, .. }
            ==> error_status == 500,
{
}

/// Before the last try nothing but a 200 answer ends the fetch: any other
/// answer, or none, is retried, after the `Retry-After` seconds for 503,
/// 429 and 405 (no wait without them) and five seconds otherwise.
pub proof fn lemma_fetch_retries_before_last(attempt: u32, event: FetchEvent)
    requires
        1 <= attempt < 5,
        !(event matches FetchEvent::Response { status, .. } && status == 200),
    ensures
        spec_fetch_action(attempt, event) == (FetchAction::Retry {
            wait_secs: match event {
                FetchEvent::Response { status, retry_after } => if status == 503 || status == 429 || status == 405 {
                    retry_after
                } else {
                    Some(5u64)
                },
                FetchEvent::TransportError => Some(5u64),
            },
        }),
{
}

/// An answer is kept exactly when its status is 200, at every attempt.
pub proof fn lemma_fetch_accepts_only_ok(attempt: u32, event: FetchEvent)
    ensures
        spec_fetch_action(attempt, event) is Accept <==> (event matches FetchEvent::Response { status, .. } && status == 200),
{
}

/// What to tell the user about an answer that is not kept.
pub enum FetchNotice {
    /// Nothing.
    Silent,
    /// That the registry asked to wait this many seconds before retrying.
    RetryingAfter(u64),
    /// That the answer was not a usable response.
    FailedResponse,
    /// The transport error itself.
    TransportFailure,
}

/// The notice for an answer that is not kept: the requested wait for 503,
/// 429 and 405 with a `Retry-After` (nothing without one), a failure for
/// any other status, and the error for no answer.
pub open spec fn spec_fetch_notice(event: FetchEvent) -> FetchNotice {
    match event {
        FetchEvent::Response { status, retry_after } => {
            if status == 503 || status == 429 || status == 405 {
                match retry_after {
                    Some(s) => FetchNotice::RetryingAfter(s),
                    None => FetchNotice::Silent,
                }
            } else {
                FetchNotice::FailedResponse
            }
        },
        FetchEvent::TransportError => FetchNotice::TransportFailure,
    }
}

/// Decides what to tell the user about an answer that is not kept.
pub fn fetch_notice(event: &FetchEvent) -> (r: FetchNotice)
    ensures
        r == spec_fetch_notice(*event),
{
    match event {
        FetchEvent::Response { status, retry_after } => {
            if *status == 503 || *status == 429 || *status == 405 {
                match retry_after {
                    Some(s) => FetchNotice::RetryingAfter(*s),
                    None => FetchNotice::Silent,
                }
            } else {
                FetchNotice::FailedResponse
            }
        },
        FetchEvent::TransportError => FetchNotice::TransportFailure,
    }
}

/// The seconds to wait after a refused tarball download: the
/// `Retry-After` seconds, or five.
pub fn tarball_retry_delay(retry_after: Option<u64>) -> (r: u64)
    ensures
        r == match retry_after {
            Some(s) => s,
            None => 5,
        },
{
    match retry_after {
        Some(s) => s,
        None => 5,
    }
}

} // verus!
