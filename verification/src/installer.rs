//! Installing a package from the registry's answer: which metadata the
//! download and the lock entry come from, which dependencies follow, and
//! the requests made for them.
use vstd::prelude::*;
use crate::lockfile::{at_join, join_at, ends_with_colon, flattened, has_prefix, lemma_lock_entry_read_back, lemma_without_quotes_concat, lemma_without_quotes_plain, lock_entry_text, package_strings, parse_lock, recorded_version, without_quotes};
use crate::json::{decode_strings, decoded, field, find_member, get_field, json_members, json_string, lookup, member_views, parse_json_members, parse_json_string};
use crate::manifest::spec_dependency_update;
use crate::table::Table;
use crate::semvar::{lemma_split_joined, spec_split_package_version, spec_convert_to_version, range_text, resolve_semvar_range, spec_version_choice, lemma_choice_in_bounds, VersionChoice};
use crate::text::{string_views, chars_eq, chars_of, is_digit, is_space, lemma_version_chars_concat, lemma_version_chars_plain, lemma_words_word, one_line, strip_char, strip_end_char, strip_start_char, trim, trim_end, trim_start, version_chars};

verus! {

/// What one version in the registry's `versions` object holds, as the
/// installer reads it.
pub struct RegistryVersion {
    pub version: String,
    pub has_dist: bool,
    pub has_dependencies: bool,
}

/// What the registry's answer for a package holds, as the installer reads
/// it: a single version's metadata, or the whole document with its
/// `versions` (listed in the order that the document's map gives them).
pub struct RegistryDocument {
    pub has_dist: bool,
    pub has_dependencies: bool,
    pub versions: Option<Vec<RegistryVersion>>,
}

/// Where a piece of metadata is taken from.
pub enum Source {
    /// The answer itself.
    Document,
    /// The version at this position of `versions`.
    Version(usize),
}

/// The dependencies that follow an installed package.
pub enum NextDependencies {
    /// The `dependencies` of this source.
    From(Source),
    /// None: the package is complete.
    Completed,
}

/// How a package is installed: the metadata whose `dist` gives the tarball
/// and that the lock entry records, and the dependencies that follow.
pub struct InstallPlan {
    pub metadata: Source,
    pub next: NextDependencies,
}

/// Why a package cannot be installed from the registry's answer.
pub enum InstallError {
    /// The chosen metadata has no `dist`.
    MissingDist,
    /// No version lies in the requested range.
    NoMatchingVersion,
    /// The version at this position does not parse.
    InvalidVersion(usize),
    /// The requested range does not parse.
    InvalidRange,
    /// The answer is no JSON object, or its `versions` (or one of them) is
    /// not.
    InvalidAnswer,
    /// The chosen metadata lacks a name (a string), version, tarball URL (a
    /// string) or integrity checksum.
    MissingMetadata,
    /// The dependencies that follow are no JSON object of strings.
    InvalidDependencies,
}

/// The version texts of a document's `versions`.
pub open spec fn version_keys(vs: Seq<RegistryVersion>) -> Seq<Seq<char>> {
    Seq::new(vs.len(), |i: int| vs[i].version@)
}

/// A registry answer as the plan reads it: whether it has `dist`, whether
/// it has `dependencies`, and its versions, if it lists any (each with its
/// version text and the same two facts).
pub type DocumentView = (bool, bool, Option<Seq<(Seq<char>, bool, bool)>>);

/// The view of a document.
pub open spec fn document_view(doc: RegistryDocument) -> DocumentView {
    (
        doc.has_dist,
        doc.has_dependencies,
        match doc.versions {
            Some(vs) => Some(Seq::new(vs@.len(), |i: int| (vs@[i].version@, vs@[i].has_dist, vs@[i].has_dependencies))),
            None => None,
        },
    )
}

/// The plan for installing a package: with `versions`, the version that
/// the request's range selects gives the metadata (it must have `dist`),
/// and the dependencies are the answer's own if it has them, else the
/// selected version's, else none; without `versions`, the answer gives the
/// metadata (it must have `dist`) and its dependencies, if any.
pub open spec fn spec_plan(request: Seq<char>, d: DocumentView) -> Result<InstallPlan, InstallError> {
    match d.2 {
        Some(vs) => match spec_version_choice(range_text(request), Seq::new(vs.len(), |i: int| vs[i].0)) {
            VersionChoice::Selected(i) => if vs[i as int].1 {
                Ok(InstallPlan {
                    metadata: Source::Version(i),
                    next: if d.1 {
                        NextDependencies::From(Source::Document)
                    } else if vs[i as int].2 {
                        NextDependencies::From(Source::Version(i))
                    } else {
                        NextDependencies::Completed
                    },
                })
            } else {
                Err(InstallError::MissingDist)
            },
            VersionChoice::NoneSatisfies => Err(InstallError::NoMatchingVersion),
            VersionChoice::InvalidVersion(i) => Err(InstallError::InvalidVersion(i)),
            VersionChoice::InvalidRange => Err(InstallError::InvalidRange),
        },
        None => if d.0 {
            Ok(InstallPlan {
                metadata: Source::Document,
                next: if d.1 {
                    NextDependencies::From(Source::Document)
                } else {
                    NextDependencies::Completed
                },
            })
        } else {
            Err(InstallError::MissingDist)
        },
    }
}

/// The plan for a document.
pub open spec fn spec_plan_install(request: Seq<char>, doc: RegistryDocument) -> Result<InstallPlan, InstallError> {
    spec_plan(request, document_view(doc))
}

/// Plans the installation of the package that `request` names from the
/// registry's answer.
pub fn plan_package_install(request: &str, doc: &RegistryDocument) -> (r: Result<InstallPlan, InstallError>)
    ensures
        r == spec_plan_install(request@, *doc),
{
    match &doc.versions {
        Some(vs) => {
            let mut keys: Vec<String> = Vec::new();
            let mut i: usize = 0;
            while i < vs.len()
                invariant
                    i <= vs@.len(),
                    keys@.len() == i,
                    forall|j: int| 0 <= j < i ==> #[trigger] keys@[j]@ == vs@[j].version@,
                decreases vs@.len() - i,
            {
                keys.push(vs[i].version.clone());
                i = i + 1;
            }
            assert(string_views(keys@) =~= version_keys(vs@));
            assert(version_keys(vs@) =~= Seq::new(vs@.len(), |j: int| document_view(*doc).2->0[j].0));
            match resolve_semvar_range(request, &keys) {
                VersionChoice::Selected(i) => {
                    if vs[i].has_dist {
                        let next = if doc.has_dependencies {
                            NextDependencies::From(Source::Document)
                        } else if vs[i].has_dependencies {
                            NextDependencies::From(Source::Version(i))
                        } else {
                            NextDependencies::Completed
                        };
                        Ok(InstallPlan { metadata: Source::Version(i), next })
                    } else {
                        Err(InstallError::MissingDist)
                    }
                },
                VersionChoice::NoneSatisfies => Err(InstallError::NoMatchingVersion),
                VersionChoice::InvalidVersion(i) => Err(InstallError::InvalidVersion(i)),
                VersionChoice::InvalidRange => Err(InstallError::InvalidRange),
            }
        },
        None => {
            if doc.has_dist {
                let next = if doc.has_dependencies {
                    NextDependencies::From(Source::Document)
                } else {
                    NextDependencies::Completed
                };
                Ok(InstallPlan { metadata: Source::Document, next })
            } else {
                Err(InstallError::MissingDist)
            }
        },
    }
}

/// The versions of an answer as the plan reads them: each version text,
/// and whether its metadata has `dist` and `dependencies`.
pub open spec fn versions_view(vms: Seq<(Seq<char>, Seq<char>)>) -> Seq<(Seq<char>, bool, bool)> {
    Seq::new(vms.len(), |i: int| (vms[i].0, field(vms[i].1, "dist"@) is Some, field(vms[i].1, "dependencies"@) is Some))
}

/// The registry's answer, given as JSON text, as the plan reads it; `None`
/// when it is no JSON object, or its `versions` (or one of them) is not.
pub open spec fn answer_view(text: Seq<char>) -> Option<DocumentView> {
    match json_members(text) {
        None => None,
        Some(ms) => match lookup(ms, "versions"@) {
            None => Some((lookup(ms, "dist"@) is Some, lookup(ms, "dependencies"@) is Some, None)),
            Some(vt) => match json_members(vt) {
                None => None,
                Some(vms) => if forall|i: int| 0 <= i < vms.len() ==> (#[trigger] json_members(vms[i].1)) is Some {
                    Some((lookup(ms, "dist"@) is Some, lookup(ms, "dependencies"@) is Some, Some(versions_view(vms))))
                } else {
                    None
                },
            },
        },
    }
}

/// The JSON text of a source: the answer itself, or the metadata of one of
/// its versions.
pub open spec fn source_text(text: Seq<char>, source: Source) -> Seq<char> {
    match source {
        Source::Document => text,
        Source::Version(i) => json_members(field(text, "versions"@)->0)->0[i as int].1,
    }
}

/// The facts that the installation takes from a package's metadata: the
/// JSON texts of its name and version, its tarball URL (the content of
/// `dist.tarball`), the JSON text of `dist.integrity`, and its name (the
/// content of the name's string).
pub type MetadataView = (Seq<char>, Seq<char>, Seq<char>, Seq<char>, Seq<char>);

/// The facts of a metadata text, when it has them all.
pub open spec fn spec_metadata(m: Seq<char>) -> Option<MetadataView> {
    match (field(m, "name"@), field(m, "version"@), field(m, "dist"@)) {
        (Some(n), Some(v), Some(d)) => match (field(d, "tarball"@), field(d, "integrity"@)) {
            (Some(t), Some(i)) => match (json_string(t), json_string(n)) {
                (Some(url), Some(plain)) => Some((n, v, url, i, plain)),
                _ => None,
            },
            _ => None,
        },
        _ => None,
    }
}

/// The dependencies that follow, as name and JSON text of the value: those
/// of the source, or the `status` marker of a package without any.
pub open spec fn spec_next(text: Seq<char>, next: NextDependencies) -> Option<Seq<(Seq<char>, Seq<char>)>> {
    match next {
        NextDependencies::Completed => Some(seq![("status"@, "\"completed\""@)]),
        NextDependencies::From(s) => match field(source_text(text, s), "dependencies"@) {
            Some(dt) => json_members(dt),
            None => None,
        },
    }
}

/// What an installation takes from the registry's answer: the plan, the
/// chosen metadata's facts, the dependencies that follow (name and JSON
/// text), and the dependencies the lock entry records.
pub type InstallView = (InstallPlan, MetadataView, Seq<(Seq<char>, Seq<char>)>, Map<Seq<char>, Seq<char>>);

/// Installing the package that `request` names from the registry's answer
/// `text`: the answer must be a JSON object (with objects for `versions`),
/// the plan must succeed, the chosen metadata must give its facts, and the
/// dependencies that follow must be an object of strings. The package
/// without dependencies is recorded with the `status` marker.
pub open spec fn spec_install(request: Seq<char>, text: Seq<char>) -> Result<InstallView, InstallError> {
    match answer_view(text) {
        None => Err(InstallError::InvalidAnswer),
        Some(d) => match spec_plan(request, d) {
            Err(e) => Err(e),
            Ok(p) => match spec_metadata(source_text(text, p.metadata)) {
                None => Err(InstallError::MissingMetadata),
                Some(md) => match p.next {
                    NextDependencies::Completed => Ok((
                        p,
                        md,
                        seq![("status"@, "\"completed\""@)],
                        Map::<Seq<char>, Seq<char>>::empty().insert("status"@, "completed"@),
                    )),
                    _ => match spec_next(text, p.next) {
                        None => Err(InstallError::InvalidDependencies),
                        Some(nx) => match decoded(nx) {
                            None => Err(InstallError::InvalidDependencies),
                            Some(lm) => Ok((p, md, nx, lm)),
                        },
                    },
                },
            },
        },
    }
}

/// An installation, as taken from the registry's answer.
pub struct Installation {
    pub plan: InstallPlan,
    /// The JSON text of the package's name.
    pub name_json: String,
    /// The JSON text of the package's version.
    pub version_json: String,
    /// The URL of the package's tarball.
    pub tarball: String,
    /// The JSON text of the package's integrity checksum.
    pub integrity_json: String,
    /// The package's name.
    pub name: String,
    /// The dependencies that follow: name and JSON text of the value.
    pub next: Vec<(String, String)>,
    /// The dependencies that the lock entry records.
    pub lock_dependencies: Table<String>,
}

/// The view of an installation.
pub open spec fn installation_view(i: Installation) -> InstallView {
    (i.plan, (i.name_json@, i.version_json@, i.tarball@, i.integrity_json@, i.name@), member_views(i.next@), i.lock_dependencies@)
}

/// The facts of the metadata whose JSON text is `m`.
fn metadata_facts(m: &str) -> (r: Option<(String, String, String, String, String)>)
    ensures
        match r {
            Some(f) => spec_metadata(m@) == Some((f.0@, f.1@, f.2@, f.3@, f.4@)),
            None => spec_metadata(m@) is None,
        },
{
    let name = match get_field(m, "name") {
        Some(x) => x,
        None => return None,
    };
    let version = match get_field(m, "version") {
        Some(x) => x,
        None => return None,
    };
    let dist = match get_field(m, "dist") {
        Some(x) => x,
        None => return None,
    };
    let tarball = match get_field(dist.as_str(), "tarball") {
        Some(x) => x,
        None => return None,
    };
    let integrity = match get_field(dist.as_str(), "integrity") {
        Some(x) => x,
        None => return None,
    };
    match (parse_json_string(tarball.as_str()), parse_json_string(name.as_str())) {
        (Some(url), Some(plain)) => Some((name, version, url, integrity, plain)),
        _ => None,
    }
}

/// A version that a plan takes its metadata or dependencies from is one of
/// the answer's versions.
proof fn lemma_plan_in_bounds(request: Seq<char>, d: DocumentView)
    ensures
        spec_plan(request, d) matches Ok(p) ==> (p.metadata matches Source::Version(i) ==> d.2 is Some && i < d.2->0.len()),
        spec_plan(request, d) matches Ok(p) ==> (p.next matches NextDependencies::From(Source::Version(i)) ==> d.2 is Some && i < d.2->0.len()),
{
    if let Some(vs) = d.2 {
        let keys = Seq::new(vs.len(), |i: int| vs[i].0);
        lemma_choice_in_bounds(range_text(request), keys);
    }
}

/// Installs the package that `request` names from the registry's answer,
/// given as its JSON text: reads the answer, plans the installation, and
/// takes the chosen metadata and the dependencies that follow from it.
/// Where the answer lacks what is needed, the error says what is missing.
pub fn plan_from_registry_text(request: &str, text: &str) -> (r: Result<Installation, InstallError>)
    ensures
        match r {
            Ok(inst) => inst.lock_dependencies.wf() && spec_install(request@, text@) == Ok::<InstallView, InstallError>(installation_view(inst)),
            Err(e) => spec_install(request@, text@) == Err::<InstallView, InstallError>(e),
        },
{
    let ms = match parse_json_members(text) {
        Some(ms) => ms,
        None => return Err(InstallError::InvalidAnswer),
    };
    let has_dist = find_member(&ms, "dist").is_some();
    let has_dependencies = find_member(&ms, "dependencies").is_some();
    let mut version_members: Vec<(String, String)> = Vec::new();
    let versions = match find_member(&ms, "versions") {
        None => None,
        Some(vt) => match parse_json_members(vt.as_str()) {
            None => return Err(InstallError::InvalidAnswer),
            Some(vms) => {
                let mut list: Vec<RegistryVersion> = Vec::new();
                let mut i: usize = 0;
                while i < vms.len()
                    invariant
                        i <= vms@.len(),
                        list@.len() == i,
                        json_members(text@) == Some(member_views(ms@)),
                        lookup(member_views(ms@), "versions"@) == Some(vt@),
                        json_members(vt@) == Some(member_views(vms@)),
                        forall|j: int| 0 <= j < i ==> (#[trigger] json_members(vms@[j].1@)) is Some,
                        forall|j: int| 0 <= j < i ==> (#[trigger] list@[j]).version@ == vms@[j].0@
                            && list@[j].has_dist == (field(vms@[j].1@, "dist"@) is Some)
                            && list@[j].has_dependencies == (field(vms@[j].1@, "dependencies"@) is Some),
                    decreases vms@.len() - i,
                {
                    match parse_json_members(vms[i].1.as_str()) {
                        None => {
                            proof {
                                assert(!(json_members(member_views(vms@)[i as int].1) is Some));
                            }
                            return Err(InstallError::InvalidAnswer);
                        },
                        Some(m) => {
                            let v = RegistryVersion {
                                version: vms[i].0.clone(),
                                has_dist: find_member(&m, "dist").is_some(),
                                has_dependencies: find_member(&m, "dependencies").is_some(),
                            };
                            list.push(v);
                        },
                    }
                    i = i + 1;
                }
                proof {
                    let vv = member_views(vms@);
                    assert forall|j: int| 0 <= j < vv.len() implies (#[trigger] json_members(vv[j].1)) is Some by {
                        assert(vv[j].1 == vms@[j].1@);
                    }
                    assert(versions_view(vv) =~= Seq::new(list@.len(), |j: int| (list@[j].version@, list@[j].has_dist, list@[j].has_dependencies)));
                }
                version_members = vms;
                assert(field(text@, "versions"@) == Some(vt@));
                assert(json_members(field(text@, "versions"@)->0) == Some(member_views(version_members@)));
                assert(version_members@.len() == list@.len());
                Some(list)
            },
        },
    };
    let doc = RegistryDocument { has_dist, has_dependencies, versions };
    assert(answer_view(text@) == Some(document_view(doc)));
    let plan = match plan_package_install(request, &doc) {
        Ok(p) => p,
        Err(e) => return Err(e),
    };
    let ghost p = plan;
    proof {
        lemma_plan_in_bounds(request@, document_view(doc));
    }
    let metadata_text = match plan.metadata {
        Source::Document => String::from_str(text),
        Source::Version(i) => version_members[i].1.clone(),
    };
    assert(metadata_text@ == source_text(text@, p.metadata));
    let facts = match metadata_facts(metadata_text.as_str()) {
        Some(f) => f,
        None => return Err(InstallError::MissingMetadata),
    };
    let (next, lock_dependencies) = match &plan.next {
        NextDependencies::Completed => {
            let mut t: Table<String> = Table::new();
            t.insert(String::from_str("status"), String::from_str("completed"));
            let mut next: Vec<(String, String)> = Vec::new();
            next.push((String::from_str("status"), String::from_str("\"completed\"")));
            assert(member_views(next@) =~= seq![("status"@, "\"completed\""@)]);
            (next, t)
        },
        NextDependencies::From(s) => {
            let source = match s {
                Source::Document => String::from_str(text),
                Source::Version(i) => version_members[*i].1.clone(),
            };
            assert(source@ == source_text(text@, *s));
            let dt = match get_field(source.as_str(), "dependencies") {
                Some(dt) => dt,
                None => return Err(InstallError::InvalidDependencies),
            };
            let members = match parse_json_members(dt.as_str()) {
                Some(m) => m,
                None => return Err(InstallError::InvalidDependencies),
            };
            let t = match decode_strings(&members) {
                Some(t) => t,
                None => return Err(InstallError::InvalidDependencies),
            };
            (members, t)
        },
    };
    Ok(Installation {
        plan,
        name_json: facts.0,
        version_json: facts.1,
        tarball: facts.2,
        integrity_json: facts.3,
        name: facts.4,
        next,
        lock_dependencies,
    })
}

/// The requests for the dependencies that follow a package, in order:
/// `name@value` for each (the value as its JSON text), skipping the
/// `status` marker of a package without dependencies.
pub open spec fn spec_dependency_requests(deps: Seq<(String, String)>) -> Seq<Seq<char>>
    decreases deps.len(),
{
    if deps.len() == 0 {
        seq![]
    } else if deps.last().0@ == "status"@ {
        spec_dependency_requests(deps.drop_last())
    } else {
        spec_dependency_requests(deps.drop_last()).push(at_join(deps.last().0@, deps.last().1@))
    }
}

/// The requests for the dependencies that follow a package.
pub fn dependency_requests(next_deps: &Vec<(String, String)>) -> (r: Vec<String>)
    ensures
        string_views(r@) == spec_dependency_requests(next_deps@),
{
    let status = chars_of("status");
    let mut r: Vec<String> = Vec::new();
    let mut i: usize = 0;
    while i < next_deps.len()
        invariant
            i <= next_deps@.len(),
            status@ == "status"@,
            string_views(r@) == spec_dependency_requests(next_deps@.subrange(0, i as int)),
        decreases next_deps@.len() - i,
    {
        let ghost before = string_views(r@);
        assert(next_deps@.subrange(0, i + 1).drop_last() =~= next_deps@.subrange(0, i as int));
        let key = chars_of(next_deps[i].0.as_str());
        if !chars_eq(&key, &status) {
            let req = join_at(&next_deps[i].0, &next_deps[i].1);
            r.push(req);
            assert(string_views(r@) =~= before.push(req@));
        }
        i = i + 1;
    }
    assert(next_deps@.subrange(0, next_deps@.len() as int) =~= next_deps@);
    r
}

/// Every dependency but the `status` marker is requested: `name@value` is
/// among the requests for each of them.
pub proof fn lemma_dependency_requests_complete(deps: Seq<(String, String)>, j: int)
    requires
        0 <= j < deps.len(),
        deps[j].0@ != "status"@,
    ensures
        spec_dependency_requests(deps).contains(deps[j].0@ + "@"@ + deps[j].1@),
    decreases deps.len(),
{
    let d = deps.drop_last();
    let want = deps[j].0@ + "@"@ + deps[j].1@;
    if j == deps.len() - 1 {
        assert(deps.last() == deps[j]);
        let r = spec_dependency_requests(deps);
        assert(r == spec_dependency_requests(d).push(at_join(deps[j].0@, deps[j].1@)));
        assert(r[r.len() - 1] == want);
    } else {
        assert(d[j] == deps[j]);
        lemma_dependency_requests_complete(d, j);
        let rest = spec_dependency_requests(d);
        let k = choose|k: int| 0 <= k < rest.len() && rest[k] == want;
        if deps.last().0@ != "status"@ {
            let r = rest.push(at_join(deps.last().0@, deps.last().1@));
            assert(r[k] == want);
        }
    }
}

/// No more requests are made than there are dependencies.
pub proof fn lemma_dependency_requests_bounded(deps: Seq<(String, String)>)
    ensures
        spec_dependency_requests(deps).len() <= deps.len(),
    decreases deps.len(),
{
    if deps.len() > 0 {
        lemma_dependency_requests_bounded(deps.drop_last());
    }
}

/// A dependency name that splits back cleanly: non-empty, with no `@` but
/// a leading one.
pub open spec fn plain_package_name(name: Seq<char>) -> bool {
    name.len() > 0 && forall|i: int| 1 <= i < name.len() ==> name[i] != '@'
}

/// Every request made for a following dependency splits back into that
/// dependency's name and its value (as `convert_to_version` leaves it).
pub proof fn lemma_dependency_requests_split(deps: Seq<(String, String)>, k: int)
    requires
        0 <= k < spec_dependency_requests(deps).len(),
        forall|j: int| 0 <= j < deps.len() ==> plain_package_name(#[trigger] deps[j].0@),
    ensures
        exists|j: int|
            0 <= j < deps.len() && deps[j].0@ != "status"@
                && spec_split_package_version(spec_dependency_requests(deps)[k])
                == (deps[j].0@, spec_convert_to_version(#[trigger] deps[j].1@)),
    decreases deps.len(),
{
    let d = deps.drop_last();
    assert forall|j: int| 0 <= j < d.len() implies plain_package_name(#[trigger] d[j].0@) by {
        assert(d[j] == deps[j]);
    }
    let rest = spec_dependency_requests(d);
    if deps.last().0@ == "status"@ {
        lemma_dependency_requests_split(d, k);
        let j = choose|j: int|
            0 <= j < d.len() && d[j].0@ != "status"@
                && spec_split_package_version(spec_dependency_requests(d)[k])
                == (d[j].0@, spec_convert_to_version(#[trigger] d[j].1@));
        assert(deps[j] == d[j]);
    } else if k < rest.len() {
        lemma_dependency_requests_split(d, k);
        let j = choose|j: int|
            0 <= j < d.len() && d[j].0@ != "status"@
                && spec_split_package_version(spec_dependency_requests(d)[k])
                == (d[j].0@, spec_convert_to_version(#[trigger] d[j].1@));
        assert(deps[j] == d[j]);
    } else {
        let j = deps.len() - 1;
        assert(plain_package_name(deps[j].0@));
        lemma_split_joined(deps[j].0@, deps[j].1@);
    }
}

/// The text of a JSON string without escapes: the characters between two
/// double quotes.
pub open spec fn quoted(s: Seq<char>) -> Seq<char> {
    seq!['"'] + s + seq!['"']
}

/// A plain version: digits and dots, at least one.
pub open spec fn plain_version(v: Seq<char>) -> bool {
    v.len() > 0 && forall|i: int| 0 <= i < v.len() ==> is_digit(#[trigger] v[i]) || v[i] == '.'
}

/// A package name as the registry spells it: at least one character, none
/// of them a quote or whitespace.
pub open spec fn registry_name(n: Seq<char>) -> bool {
    n.len() > 0 && forall|i: int| 0 <= i < n.len() ==> #[trigger] n[i] != '"' && !is_space(n[i])
}

proof fn lemma_strip_quotes(s: Seq<char>)
    requires
        s.len() > 0,
        s[0] != '"',
        s.last() != '"',
    ensures
        strip_char(quoted(s), '"') == s,
{
    let q = quoted(s);
    assert(q.drop_first() =~= s + seq!['"']);
    assert((s + seq!['"'])[0] == s[0]);
    assert(q[0] == '"');
    assert(strip_start_char(q, '"') == strip_start_char(q.drop_first(), '"'));
    assert(strip_start_char(s + seq!['"'], '"') == s + seq!['"']);
    assert(strip_start_char(q, '"') == s + seq!['"']);
    assert((s + seq!['"']).drop_last() =~= s);
    assert(strip_end_char(s + seq!['"'], '"') == strip_end_char(s, '"'));
}

/// A package just added is in agreement between the lock file and
/// `package.json`, so that `install` does not report it: reading the lock
/// file back gives `name@version` for it, and the dependencies written to
/// `package.json` map its name to that version (when its version is plain).
/// The entry is the one `LockEntry::new` makes of the JSON texts: the
/// quoted name and version, and the resolved URL and integrity checksum.
pub proof fn lemma_added_package_agrees(
    prefix: Seq<char>,
    name: Seq<char>,
    version: Seq<char>,
    resolved_json: Seq<char>,
    integrity_json: Seq<char>,
    dependencies: Seq<char>,
    existing: Option<Map<Seq<char>, Seq<char>>>,
    update: bool,
)
    requires
        prefix.len() == 0 || prefix.last() == '\n',
        registry_name(name),
        plain_version(version),
        one_line(without_quotes(resolved_json)),
        one_line(without_quotes(integrity_json)),
        one_line(dependencies),
        !ends_with_colon(trim_end(without_quotes(resolved_json))),
        !ends_with_colon(trim_end(without_quotes(integrity_json))),
        !ends_with_colon(trim(dependencies)),
        !has_prefix(trim(dependencies), "dependencies"@),
    ensures
        flattened(
            parse_lock(prefix + lock_entry_text(
                without_quotes(quoted(name)),
                without_quotes(quoted(version)),
                without_quotes(resolved_json),
                without_quotes(integrity_json),
                dependencies,
            )),
        ).contains(at_join(name, version)),
        spec_dependency_update(existing, strip_char(quoted(name), '"'), strip_char(quoted(version), '"'), update)
            matches Some(m) ==> m.contains_key(name) && m[name] == version,
{
    let q = seq!['"'];
    let resolved = without_quotes(resolved_json);
    let integrity = without_quotes(integrity_json);
    // The name and the version lose their quotes.
    assert(without_quotes(q) == without_quotes(Seq::<char>::empty())) by {
        assert(q.drop_last() =~= Seq::<char>::empty());
    }
    lemma_without_quotes_concat(q, name);
    lemma_without_quotes_concat(q + name, q);
    lemma_without_quotes_plain(name);
    assert(without_quotes(quoted(name)) =~= name);
    assert forall|i: int| 0 <= i < version.len() implies version[i] != '"' by {
        assert(is_digit(version[i]) || version[i] == '.');
    }
    lemma_without_quotes_concat(q, version);
    lemma_without_quotes_concat(q + version, q);
    lemma_without_quotes_plain(version);
    assert(without_quotes(quoted(version)) =~= version);
    // The version is one line, one word, and reads back as itself.
    assert(one_line(name)) by {
        assert forall|i: int| 0 <= i < name.len() implies name[i] != '\n' by {
            assert(!is_space(name[i]));
        }
    }
    assert forall|i: int| 0 <= i < version.len() implies !is_space(#[trigger] version[i]) && version[i] != '\n' by {
        assert(is_digit(version[i]) || version[i] == '.');
    }
    assert(one_line(version));
    assert(version.last() == version[version.len() - 1]);
    assert(trim_end(version) == version);
    lemma_words_word(version);
    lemma_version_chars_plain(version);
    assert(recorded_version(version) == version);
    // The entry reads back under the name.
    assert(name[0] != '"' && !is_space(name[0]));
    assert(trim_start(name) == name);
    lemma_lock_entry_read_back(prefix, name, version, resolved, integrity, dependencies);
    let m = parse_lock(prefix + lock_entry_text(name, version, resolved, integrity, dependencies));
    assert(m.contains_key(name));
    assert(package_strings(name, m[name], at_join(name, version)));
    // `package.json` records the version under the name.
    assert(name.last() == name[name.len() - 1]);
    assert(is_digit(version[0]) || version[0] == '.');
    assert(is_digit(version.last()) || version.last() == '.');
    lemma_strip_quotes(name);
    lemma_strip_quotes(version);
}

} // verus!
