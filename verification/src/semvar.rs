//! Package specifiers and semantic versions: splitting `name@version`,
//! reading the range a request names, and choosing the greatest registry
//! version that satisfies it.
use vstd::prelude::*;
use crate::precedence::{version_order, lemma_version_antisymmetric, lemma_version_transitive, order_version};
use crate::text::{string_views, lemma_find_char_at, lemma_find_char, 
    all_digits, chars_of, find_char, find_char_index, is_digit, slice_chars, string_of,
    strip_char, strip_str, trim, trim_chars, trim_str, push_char,
};

verus! {

/// The version text with `.0.0` appended when it is a single integer (so
/// `4` becomes `4.0.0`); any other text, the empty one among them, is left
/// as it is.
pub open spec fn spec_convert_to_version(input: Seq<char>) -> Seq<char> {
    if input.len() > 0 && all_digits(input) {
        input + ".0.0"@
    } else {
        input
    }
}

/// Turns a bare major version into a full one, leaving any other text as
/// it is.
pub fn convert_to_version(input: &str) -> (r: String)
    ensures
        r@ == spec_convert_to_version(input@),
{
    let cs = chars_of(input);
    if cs.len() == 0 {
        return String::from_str(input);
    }
    let mut i: usize = 0;
    while i < cs.len()
        invariant
            cs@ == input@,
            i <= cs@.len(),
            forall|j: int| 0 <= j < i ==> is_digit(#[trigger] cs@[j]),
        decreases cs@.len() - i,
    {
        let c = cs[i];
        if !('0' <= c && c <= '9') {
            return String::from_str(input);
        }
        i = i + 1;
    }
    let mut r = String::from_str(input);
    r.append(".0.0");
    r
}

/// The text before the first `c` and, if there is one, the text after it.
pub open spec fn split_at_first(s: Seq<char>, c: char) -> (Seq<char>, Option<Seq<char>>) {
    match find_char(s, c) {
        Some(i) => (s.subrange(0, i), Some(s.subrange(i + 1, s.len() as int))),
        None => (s, None),
    }
}

/// A package specifier split into name and version: a leading `@` belongs
/// to the (scoped) name and the version follows the next `@`; otherwise the
/// version follows the first `@`. Without a version separator the whole
/// text is the name and the version is `latest`. A version that is a single
/// integer gains `.0.0`.
pub open spec fn spec_split_package_version(name: Seq<char>) -> (Seq<char>, Seq<char>) {
    if name.len() > 0 && name[0] == '@' {
        let parts = split_at_first(name.drop_first(), '@');
        match parts.1 {
            Some(v) => (seq!['@'] + parts.0, spec_convert_to_version(v)),
            None => (name, "latest"@),
        }
    } else {
        let parts = split_at_first(name, '@');
        match parts.1 {
            Some(v) => (parts.0, spec_convert_to_version(v)),
            None => (name, "latest"@),
        }
    }
}

/// Splits `name@version` (or `@scope/name@version`) into name and version.
pub fn split_package_version(name: &str) -> (r: (String, String))
    ensures
        (r.0@, r.1@) == spec_split_package_version(name@),
{
    let cs = chars_of(name);
    if cs.len() > 0 && cs[0] == '@' {
        let rest = slice_chars(&cs, 1, cs.len());
        assert(rest@ =~= name@.drop_first());
        let mut scoped = String::new();
        push_char(&mut scoped, '@');
        match find_char_index(&rest, '@') {
            Some(i) => {
                let before = slice_chars(&rest, 0, i);
                let after = slice_chars(&rest, i + 1, rest.len());
                scoped.append(string_of(&before).as_str());
                assert(scoped@ =~= seq!['@'] + before@);
                let version = string_of(&after);
                (scoped, convert_to_version(version.as_str()))
            },
            None => (String::from_str(name), String::from_str("latest")),
        }
    } else {
        match find_char_index(&cs, '@') {
            Some(i) => {
                let before = string_of(&slice_chars(&cs, 0, i));
                let after = string_of(&slice_chars(&cs, i + 1, cs.len()));
                (before, convert_to_version(after.as_str()))
            },
            None => (String::from_str(name), String::from_str("latest")),
        }
    }
}

/// The text after the first `:`, trimmed, or the whole text when it has no
/// `:` (a dependency written as `name: range` gives its range).
pub open spec fn spec_extract_right_side(input: Seq<char>) -> Seq<char> {
    match find_char(input, ':') {
        Some(i) => trim(input.subrange(i + 1, input.len() as int)),
        None => input,
    }
}

/// The range part of `name: range`, or the whole text.
pub fn extract_right_side(input_str: &str) -> (r: String)
    ensures
        r@ == spec_extract_right_side(input_str@),
{
    let cs = chars_of(input_str);
    match find_char_index(&cs, ':') {
        Some(i) => {
            let n = cs.len();
            let right = slice_chars(&cs, i + 1, n);
            string_of(&trim_chars(&right))
        },
        None => String::from_str(input_str),
    }
}

/// `name@version` with the whitespace around both parts removed, split at
/// the first `@`; a text without `@` is returned as it is.
pub open spec fn spec_combine_dependency_and_version(input: Seq<char>) -> Seq<char> {
    let parts = split_at_first(input, '@');
    match parts.1 {
        Some(v) => trim(parts.0) + "@"@ + trim(v),
        None => input,
    }
}

/// Normalises `name @ version` to `name@version`.
pub fn _combine_dependency_and_version(input: &str) -> (r: String)
    ensures
        r@ == spec_combine_dependency_and_version(input@),
{
    let cs = chars_of(input);
    match find_char_index(&cs, '@') {
        Some(i) => {
            let n = cs.len();
            let before = slice_chars(&cs, 0, i);
            let after = slice_chars(&cs, i + 1, n);
            let mut r = string_of(&trim_chars(&before));
            r.append("@");
            r.append(string_of(&trim_chars(&after)).as_str());
            r
        },
        None => String::from_str(input),
    }
}

/// One pre-release identifier of a version, as `nodejs_semver::Identifier`
/// holds it.
pub enum PreId {
    Numeric(u64),
    Alpha(String),
}

/// A pre-release identifier as a plain value: whether it is alphanumeric,
/// its number (numeric ones) and its text (alphanumeric ones).
pub open spec fn pre_id_view(p: PreId) -> (bool, u64, Seq<char>) {
    match p {
        PreId::Numeric(n) => (false, n, Seq::<char>::empty()),
        PreId::Alpha(s) => (true, 0u64, s@),
    }
}

/// The parts of a parsed version that its order reads: the major, minor
/// and patch numbers and the pre-release identifiers (build metadata plays
/// no part).
pub struct VersionKey {
    pub major: u64,
    pub minor: u64,
    pub patch: u64,
    pub pre: Vec<PreId>,
}

impl View for VersionKey {
    type V = (u64, u64, u64, Seq<(bool, u64, Seq<char>)>);

    open spec fn view(&self) -> Self::V {
        (self.major, self.minor, self.patch, self.pre@.map_values(|p: PreId| pre_id_view(p)))
    }
}

/// What `nodejs_semver::Version`'s `FromStr` makes of a text: the major,
/// minor and patch numbers and the pre-release identifiers of the version,
/// or `None` when the text is no version.
pub uninterp spec fn semver_parse(text: Seq<char>) -> Option<(u64, u64, u64, Seq<(bool, u64, Seq<char>)>)>;

/// A version text that `nodejs_semver::Version`'s `FromStr` accepts.
pub open spec fn semver_version_valid(text: Seq<char>) -> bool {
    semver_parse(text) is Some
}

/// Parses a version with `nodejs_semver::Version`'s `FromStr` and reads its
/// parts with `Version::major`, `minor`, `patch` and `pre_release`.
/// Claimed: the result is the named parse of the text.
#[verifier::external_body]
fn parse_version_key(text: &str) -> (r: Option<VersionKey>)
    ensures
        match r {
            Some(k) => semver_parse(text@) == Some(k@),
            None => semver_parse(text@) is None,
        },
{
    match text.parse::<nodejs_semver::Version>() {
        Err(_) => None,
        Ok(v) => Some(VersionKey {
            major: v.major(),
            minor: v.minor(),
            patch: v.patch(),
            pre: v.pre_release().iter().map(|i| match i {
                nodejs_semver::Identifier::Numeric(n) => PreId::Numeric(*n),
                nodejs_semver::Identifier::AlphaNumeric(s) => PreId::Alpha(s.clone()),
            }).collect(),
        }),
    }
}

/// A range text that `nodejs_semver::Range::parse` accepts.
pub uninterp spec fn semver_range_valid(text: Seq<char>) -> bool;

/// Whether the parsed version lies in the parsed range, as
/// `nodejs_semver::Version::satisfies` (the same as `Range::satisfies`)
/// decides it.
pub uninterp spec fn semver_satisfies(version: Seq<char>, range: Seq<char>) -> bool;

/// The outcome of testing a version text against a range text.
pub enum SemverCheck {
    /// Both parse; whether the version lies in the range.
    Tested(bool),
    InvalidVersion,
    InvalidRange,
}

/// The outcome of parsing the version, then the range, then testing one
/// against the other.
pub open spec fn semver_check(version: Seq<char>, range: Seq<char>) -> SemverCheck {
    if !semver_version_valid(version) {
        SemverCheck::InvalidVersion
    } else if !semver_range_valid(range) {
        SemverCheck::InvalidRange
    } else {
        SemverCheck::Tested(semver_satisfies(version, range))
    }
}

/// Parses `version` with `nodejs_semver::Version`'s `FromStr`, then `range`
/// with `nodejs_semver::Range`'s `FromStr`, and asks
/// `Version::satisfies`. Claimed: each step fails or answers as the names
/// `semver_version_valid`, `semver_range_valid` and `semver_satisfies` say.
#[verifier::external_body]
fn check_semver(version: &str, range: &str) -> (r: SemverCheck)
    ensures
        r is InvalidVersion == !semver_version_valid(version@),
        r is InvalidRange == (semver_version_valid(version@) && !semver_range_valid(range@)),
        r matches SemverCheck::Tested(b) ==> b == semver_satisfies(version@, range@),
{
    match version.parse::<nodejs_semver::Version>() {
        Err(_) => SemverCheck::InvalidVersion,
        Ok(v) => match range.parse::<nodejs_semver::Range>() {
            Err(_) => SemverCheck::InvalidRange,
            Ok(r) => SemverCheck::Tested(v.satisfies(&r)),
        },
    }
}

/// The range a request names: the part after a `:` if any, with the
/// quotes of a JSON string removed.
pub open spec fn range_text(input: Seq<char>) -> Seq<char> {
    strip_char(spec_extract_right_side(input), '"')
}

/// Which of the registry's versions a request selects.
pub enum VersionChoice {
    /// The version at this position of the given list.
    Selected(usize),
    /// No version lies in the range.
    NoneSatisfies,
    /// The version at this position does not parse.
    InvalidVersion(usize),
    /// The range does not parse.
    InvalidRange,
}

/// Testing the versions in order from position `i`: the first that does
/// not parse, or (with an unparsable range) the first tested, is the error
/// that the choice reports; `None` when every one from `i` on parses and,
/// if there are any, the range does too.
pub open spec fn first_version_error(range: Seq<char>, keys: Seq<Seq<char>>, i: int) -> Option<VersionChoice>
    decreases keys.len() - i,
{
    if i < 0 || i >= keys.len() {
        None
    } else {
        match semver_check(keys[i], range) {
            SemverCheck::InvalidVersion => Some(VersionChoice::InvalidVersion(i as usize)),
            SemverCheck::InvalidRange => Some(VersionChoice::InvalidRange),
            SemverCheck::Tested(_) => first_version_error(range, keys, i + 1),
        }
    }
}

/// The parts of a version text (meaningful when it parses).
pub open spec fn parsed(text: Seq<char>) -> (u64, u64, u64, Seq<(bool, u64, Seq<char>)>) {
    semver_parse(text)->0
}

/// The version at position `i` is the best in the range: it lies in the
/// range, no listed version in the range is greater, and every one listed
/// before it in the range is smaller (so that among equal versions the
/// first is taken).
pub open spec fn best_in_range(range: Seq<char>, keys: Seq<Seq<char>>, i: int) -> bool {
    &&& 0 <= i < keys.len()
    &&& semver_satisfies(keys[i], range)
    &&& forall|j: int| 0 <= j < keys.len() && semver_satisfies(#[trigger] keys[j], range)
        ==> order_version(parsed(keys[j]), parsed(keys[i])) <= 0
    &&& forall|j: int| 0 <= j < i && semver_satisfies(#[trigger] keys[j], range)
        ==> order_version(parsed(keys[j]), parsed(keys[i])) < 0
}

/// The version a request selects: the error of the first version (or
/// range) that does not parse; else the best version in the range; else
/// none.
pub open spec fn spec_version_choice(range: Seq<char>, keys: Seq<Seq<char>>) -> VersionChoice {
    match first_version_error(range, keys, 0) {
        Some(e) => e,
        None => if exists|i: int| best_in_range(range, keys, i) {
            VersionChoice::Selected((choose|i: int| best_in_range(range, keys, i)) as usize)
        } else {
            VersionChoice::NoneSatisfies
        },
    }
}

/// Chooses, among the registry's versions, the greatest whose version lies
/// in the range that `input` names (the first listed among equal ones).
/// Where a version or the range does not parse, the choice reports it (the
/// first such version in the list) in place of failing.
pub fn resolve_semvar_range(input: &str, version_keys: &Vec<String>) -> (r: VersionChoice)
    ensures
        r == spec_version_choice(range_text(input@), string_views(version_keys@)),
        r matches VersionChoice::Selected(i) ==> i < version_keys@.len()
            && best_in_range(range_text(input@), string_views(version_keys@), i as int),
        r matches VersionChoice::InvalidVersion(i) ==> i < version_keys@.len(),
        r is NoneSatisfies ==> forall|j: int| 0 <= j < version_keys@.len()
            ==> !semver_satisfies(#[trigger] string_views(version_keys@)[j], range_text(input@)),
{
    let right = extract_right_side(input);
    let range = strip_str(right.as_str(), '"');
    let ghost keys = string_views(version_keys@);
    // First pass: every version (and the range) must parse.
    let mut inside: Vec<bool> = Vec::new();
    let mut i: usize = 0;
    while i < version_keys.len()
        invariant
            i <= version_keys@.len(),
            keys == string_views(version_keys@),
            range@ == range_text(input@),
            first_version_error(range@, keys, 0) == first_version_error(range@, keys, i as int),
            inside@.len() == i,
            forall|j: int| 0 <= j < i ==> semver_version_valid(#[trigger] keys[j]) && semver_range_valid(range@)
                && inside@[j] == semver_satisfies(keys[j], range@),
        decreases version_keys@.len() - i,
    {
        assert(keys[i as int] == version_keys@[i as int]@);
        let c = check_semver(version_keys[i].as_str(), range.as_str());
        assert(c == semver_check(keys[i as int], range@));
        match c {
            SemverCheck::InvalidVersion => {
                proof { lemma_first_error_unique(range@, keys, i as int); }
                return VersionChoice::InvalidVersion(i);
            },
            SemverCheck::InvalidRange => return VersionChoice::InvalidRange,
            SemverCheck::Tested(b) => {
                inside.push(b);
            },
        }
        i = i + 1;
    }
    assert(first_version_error(range@, keys, i as int) is None);
    // Second pass: the greatest version in the range, the first among equals.
    let mut best: Option<usize> = None;
    let mut i: usize = 0;
    while i < version_keys.len()
        invariant
            i <= version_keys@.len(),
            keys == string_views(version_keys@),
            inside@.len() == version_keys@.len(),
            forall|j: int| 0 <= j < version_keys@.len() ==> semver_version_valid(#[trigger] keys[j])
                && inside@[j] == semver_satisfies(keys[j], range@),
            best is None ==> forall|j: int| 0 <= j < i ==> !semver_satisfies(#[trigger] keys[j], range@),
            best matches Some(b) ==> {
                &&& b < i
                &&& semver_satisfies(keys[b as int], range@)
                &&& forall|j: int| 0 <= j < i && semver_satisfies(#[trigger] keys[j], range@)
                    ==> order_version(parsed(keys[j]), parsed(keys[b as int])) <= 0
                &&& forall|j: int| 0 <= j < b && semver_satisfies(#[trigger] keys[j], range@)
                    ==> order_version(parsed(keys[j]), parsed(keys[b as int])) < 0
            },
        decreases version_keys@.len() - i,
    {
        assert(keys[i as int] == version_keys@[i as int]@);
        if inside[i] {
            let replace = match best {
                None => true,
                Some(b) => {
                    assert(keys[b as int] == version_keys@[b as int]@);
                    version_order(version_keys[i].as_str(), version_keys[b].as_str()) > 0
                },
            };
            let ghost k = parsed(keys[i as int]);
            if replace {
                proof {
                    lemma_version_antisymmetric(k, k);
                    if let Some(b) = best {
                        let kb = parsed(keys[b as int]);
                        lemma_version_antisymmetric(kb, k);
                        assert forall|j: int| 0 <= j < i && semver_satisfies(#[trigger] keys[j], range@)
                            implies order_version(parsed(keys[j]), k) < 0 by {
                            lemma_version_transitive(parsed(keys[j]), kb, k);
                        }
                    }
                    assert forall|j: int| 0 <= j < i + 1 && semver_satisfies(#[trigger] keys[j], range@)
                        implies order_version(parsed(keys[j]), k) <= 0 by {
                        if j < i {
                            assert(order_version(parsed(keys[j]), k) < 0);
                        }
                    }
                }
                best = Some(i);
            } else {
                proof {
                    if let Some(b) = best {
                        let kb = parsed(keys[b as int]);
                        assert(order_version(k, kb) <= 0);
                        assert forall|j: int| 0 <= j < i + 1 && semver_satisfies(#[trigger] keys[j], range@)
                            implies order_version(parsed(keys[j]), kb) <= 0 by {
                            if j == i {
                                assert(parsed(keys[j]) == k);
                            }
                        }
                    }
                }
            }
        }
        i = i + 1;
    }
    match best {
        None => {
            proof {
                assert forall|j: int| !best_in_range(range@, keys, j) by {
                    if 0 <= j < keys.len() {
                        assert(!semver_satisfies(keys[j], range@));
                    }
                }
            }
            VersionChoice::NoneSatisfies
        },
        Some(b) => {
            proof {
                assert(best_in_range(range@, keys, b as int));
                let c = choose|j: int| best_in_range(range@, keys, j);
                lemma_best_unique(range@, keys, b as int, c);
            }
            VersionChoice::Selected(b)
        },
    }
}

/// The error that the scan reports is never a selection.
proof fn lemma_first_error_not_selected(range: Seq<char>, keys: Seq<Seq<char>>, k: int)
    ensures
        first_version_error(range, keys, k) matches Some(e) ==> !(e is Selected),
    decreases keys.len() - k,
{
    if 0 <= k < keys.len() {
        lemma_first_error_not_selected(range, keys, k + 1);
    }
}

/// The version a request selects is one of those listed.
pub proof fn lemma_choice_in_bounds(range: Seq<char>, keys: Seq<Seq<char>>)
    ensures
        spec_version_choice(range, keys) matches VersionChoice::Selected(i) ==> i < keys.len(),
{
    lemma_first_error_not_selected(range, keys, 0);
    if first_version_error(range, keys, 0) is None && exists|i: int| best_in_range(range, keys, i) {
        let c = choose|i: int| best_in_range(range, keys, i);
        assert(0 <= c < keys.len());
    }
}

/// The first version (or range) that does not parse is the error the
/// choice reports, wherever the scan reached it.
proof fn lemma_first_error_unique(range: Seq<char>, keys: Seq<Seq<char>>, i: int)
    requires
        0 <= i < keys.len(),
        semver_check(keys[i], range) is InvalidVersion,
    ensures
        first_version_error(range, keys, i) == Some(VersionChoice::InvalidVersion(i as usize)),
{
}

/// At most one version is the best in the range: the choice is determined
/// by the versions and the range, whatever else the list holds.
pub proof fn lemma_best_unique(range: Seq<char>, keys: Seq<Seq<char>>, i: int, j: int)
    requires
        best_in_range(range, keys, i),
        best_in_range(range, keys, j),
    ensures
        i == j,
{
    lemma_version_antisymmetric(parsed(keys[i]), parsed(keys[j]));
    if i < j {
        assert(order_version(parsed(keys[i]), parsed(keys[j])) < 0);
        assert(order_version(parsed(keys[j]), parsed(keys[i])) <= 0);
    } else if j < i {
        assert(order_version(parsed(keys[j]), parsed(keys[i])) < 0);
        assert(order_version(parsed(keys[i]), parsed(keys[j])) <= 0);
    }
}

/// When no version or range fails to parse, every version parses and the
/// range does too (if there is any version).
pub proof fn lemma_no_version_error(range: Seq<char>, keys: Seq<Seq<char>>, k: int)
    requires
        0 <= k,
        first_version_error(range, keys, k) is None,
    ensures
        forall|j: int| k <= j < keys.len() ==> semver_version_valid(#[trigger] keys[j]) && semver_range_valid(range),
    decreases keys.len() - k,
{
    if k < keys.len() {
        lemma_no_version_error(range, keys, k + 1);
        assert forall|j: int| k <= j < keys.len() implies semver_version_valid(#[trigger] keys[j]) && semver_range_valid(range) by {
            if j == k {
            }
        }
    }
}

/// Why an installed package could not be compared with a request.
pub enum SemverError {
    InvalidVersion,
    InvalidRange,
}

/// Whether a dependency still has to be installed: yes when no installed
/// version is known; otherwise no exactly when the installed version (a
/// JSON value, trimmed and unquoted) lies in the requested range (trimmed
/// and unquoted).
pub open spec fn spec_needs_install(requested: Seq<char>, installed: Option<Seq<char>>) -> Result<bool, SemverError> {
    match installed {
        None => Ok(true),
        Some(v) => match semver_check(strip_char(trim(v), '"'), strip_char(trim(requested), '"')) {
            SemverCheck::Tested(satisfied) => Ok(!satisfied),
            SemverCheck::InvalidVersion => Err(SemverError::InvalidVersion),
            SemverCheck::InvalidRange => Err(SemverError::InvalidRange),
        },
    }
}

/// Decides whether a dependency must be installed, given the version that
/// its installed `package.json` records, if any.
pub fn dependency_needs_install(requested: &str, installed_version_json: Option<String>) -> (r: Result<bool, SemverError>)
    ensures
        r == spec_needs_install(
            requested@,
            match installed_version_json {
                Some(v) => Some(v@),
                None => None,
            },
        ),
{
    match installed_version_json {
        None => Ok(true),
        Some(v) => {
            let range = strip_str(trim_str(requested).as_str(), '"');
            let version = strip_str(trim_str(v.as_str()).as_str(), '"');
            let c = check_semver(version.as_str(), range.as_str());
            assert(c == semver_check(version@, range@));
            match c {
                SemverCheck::Tested(satisfied) => Ok(!satisfied),
                SemverCheck::InvalidVersion => Err(SemverError::InvalidVersion),
                SemverCheck::InvalidRange => Err(SemverError::InvalidRange),
            }
        },
    }
}

/// The folder in which a package is looked for before it is fetched again.
pub fn module_dir(name: &str) -> (r: String)
    ensures
        r@ == "./node_modules/"@ + name@,
{
    let mut r = String::from_str("./node_modules/");
    r.append(name);
    r
}

/// Joining a name and a version with `@` and splitting the result gives the
/// name back, with the version as `convert_to_version` leaves it; this holds
/// for every non-empty name whose only `@` is a leading one (scoped names).
pub proof fn lemma_split_joined(name: Seq<char>, version: Seq<char>)
    requires
        name.len() > 0,
        forall|i: int| 1 <= i < name.len() ==> name[i] != '@',
    ensures
        spec_split_package_version(name + "@"@ + version) == (name, spec_convert_to_version(version)),
{
    reveal_strlit("@");
    let s = name + "@"@ + version;
    assert(s[0] == name[0]);
    if name[0] == '@' {
        let rest = s.drop_first();
        let k = name.len() - 1;
        assert(rest[k] == '@');
        assert forall|j: int| 0 <= j < k implies rest[j] != '@' by {
            assert(rest[j] == name[j + 1]);
        }
        lemma_find_char_at(rest, '@', k);
        assert(seq!['@'] + rest.subrange(0, k) =~= name);
        assert(rest.subrange(k + 1, rest.len() as int) =~= version);
    } else {
        let k = name.len() as int;
        assert(s[k] == '@');
        assert forall|j: int| 0 <= j < k implies s[j] != '@' by {
            assert(s[j] == name[j]);
        }
        lemma_find_char_at(s, '@', k);
        assert(s.subrange(0, k) =~= name);
        assert(s.subrange(k + 1, s.len() as int) =~= version);
    }
}

/// A version text gains `.0.0` only when it is a non-empty run of ASCII
/// digits (a bare major version); any other text (empty, a dist-tag such as
/// `latest` or `next`, a range) is left exactly as it is.
pub proof fn lemma_convert_only_bare_numbers(v: Seq<char>)
    ensures
        (exists|j: int| 0 <= j < v.len() && !('0' <= #[trigger] v[j] && v[j] <= '9')) ==> spec_convert_to_version(v) == v,
        v.len() == 0 ==> spec_convert_to_version(v) == v,
        (v.len() > 0 && forall|j: int| 0 <= j < v.len() ==> '0' <= #[trigger] v[j] && v[j] <= '9')
            ==> spec_convert_to_version(v) == v + ".0.0"@,
{
}

/// A specifier `name@version` whose version holds anything but ASCII
/// digits (a dist-tag, a range) splits into the name and that version,
/// unchanged; this holds for every non-empty name whose only `@` is a
/// leading one.
pub proof fn lemma_split_keeps_tags(name: Seq<char>, version: Seq<char>)
    requires
        name.len() > 0,
        forall|i: int| 1 <= i < name.len() ==> name[i] != '@',
        exists|j: int| 0 <= j < version.len() && !('0' <= #[trigger] version[j] && version[j] <= '9'),
    ensures
        spec_split_package_version(name + "@"@ + version) == (name, version),
{
    lemma_split_joined(name, version);
    lemma_convert_only_bare_numbers(version);
}

/// A specifier without a version separator (no `@` after its first
/// character) is a name with the version `latest`.
pub proof fn lemma_split_without_version(name: Seq<char>)
    requires
        forall|i: int| 1 <= i < name.len() ==> name[i] != '@',
    ensures
        spec_split_package_version(name) == (name, "latest"@),
{
    if name.len() > 0 && name[0] == '@' {
        let rest = name.drop_first();
        lemma_find_char(rest, '@');
        if let Some(k) = find_char(rest, '@') {
            assert(rest[k] == name[k + 1]);
        }
    } else {
        lemma_find_char(name, '@');
        if let Some(k) = find_char(name, '@') {
            assert(name[k] != '@');
        }
    }
}

/// The semantic version that a text denotes, when it is one (its numbers
/// and pre-release identifiers, as `nodejs_semver` parses it); any other
/// text, a bare number among them, has none. The options are not consulted.
pub fn coerce(version: &str, options: Option<&str>) -> (r: Option<VersionKey>)
    ensures
        match r {
            Some(k) => semver_parse(version@) == Some(k@),
            None => semver_parse(version@) is None,
        },
{
    parse_version_key(version)
}

} // verus!
