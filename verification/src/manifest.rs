//! `package.json`: the project it describes, the dependencies it lists and
//! the scripts it runs.
use vstd::prelude::*;
use crate::json::{decode_strings, decoded, get_field, json_members, json_string, lookup, member_views, parse_json_members, parse_json_string};
use crate::table::Table;
use crate::text::{strip_char, strip_str, trim, trim_str};

verus! {

/// What the dependency list of `package.json` becomes after a package is
/// installed: without a list, a new list holding just the package; with a
/// list and `update`, the list with the package's version recorded (added
/// or replaced); with a list and no `update`, unchanged (`None`).
pub open spec fn spec_dependency_update(
    existing: Option<Map<Seq<char>, Seq<char>>>,
    name: Seq<char>,
    version: Seq<char>,
    update: bool,
) -> Option<Map<Seq<char>, Seq<char>>> {
    match existing {
        None => Some(Map::<Seq<char>, Seq<char>>::empty().insert(name, version)),
        Some(m) => if update {
            Some(m.insert(name, version))
        } else {
            None
        },
    }
}

/// What to write back to `package.json`'s dependencies.
pub enum DependencyUpdate {
    Unchanged,
    Write(Table<String>),
}

/// The dependency list to write after installing the package whose
/// metadata has these JSON `name` and `version` values (their quotes are
/// removed).
pub fn plan_dependency_update(
    existing: Option<Table<String>>,
    name_json: &str,
    version_json: &str,
    update: bool,
) -> (r: DependencyUpdate)
    requires
        existing matches Some(t) ==> t.wf(),
    ensures
        r matches DependencyUpdate::Write(t) ==> t.wf(),
        match r {
            DependencyUpdate::Unchanged => spec_dependency_update(
                match existing { Some(t) => Some(t@), None => None },
                strip_char(name_json@, '"'),
                strip_char(version_json@, '"'),
                update,
            ) is None,
            DependencyUpdate::Write(t) => spec_dependency_update(
                match existing { Some(t) => Some(t@), None => None },
                strip_char(name_json@, '"'),
                strip_char(version_json@, '"'),
                update,
            ) == Some(t@),
        },
{
    let name = strip_str(name_json, '"');
    let version = strip_str(version_json, '"');
    match existing {
        None => {
            let mut t: Table<String> = Table::new();
            t.insert(name, version);
            DependencyUpdate::Write(t)
        },
        Some(t) => {
            if update {
                let mut t = t;
                t.insert(name, version);
                DependencyUpdate::Write(t)
            } else {
                DependencyUpdate::Unchanged
            }
        },
    }
}

/// After an update is written, `package.json` gives back the installed
/// version for the package, and every other dependency as it was.
pub proof fn lemma_dependency_update_read_back(
    existing: Option<Map<Seq<char>, Seq<char>>>,
    name: Seq<char>,
    version: Seq<char>,
    update: bool,
)
    ensures
        spec_dependency_update(existing, name, version, update) matches Some(m) ==> {
            &&& m.contains_key(name)
            &&& m[name] == version
            &&& forall|k: Seq<char>| k != name ==> (#[trigger] m.contains_key(k) <==> (existing matches Some(e) && e.contains_key(k)))
            &&& forall|k: Seq<char>| k != name && #[trigger] m.contains_key(k) ==> (existing matches Some(e) && m[k] == e[k])
        },
        spec_dependency_update(existing, name, version, update) is None <==> (existing is Some && !update),
{
}

/// Why a script cannot be run.
pub enum ScriptError {
    /// The script's value is not a string.
    NotText,
}

/// The command of a script: the empty command when `package.json` has no
/// scripts; otherwise the named script's text (which must be there).
pub open spec fn spec_script_command(scripts: Option<Map<Seq<char>, Option<String>>>, script: Seq<char>) -> Result<Seq<char>, ScriptError> {
    match scripts {
        None => Ok(seq![]),
        Some(m) => match m[script] {
            Some(c) => Ok(c@),
            None => Err(ScriptError::NotText),
        },
    }
}

/// Looks up the command of a script among `package.json`'s scripts (each a
/// string, or `None` for a value of another kind). When `package.json` has
/// scripts, the named one must be among them (the command line stops with
/// "Script not found" otherwise); one that is not a string is answered with
/// an error.
pub fn script_command(scripts: Option<&Table<Option<String>>>, script: &str) -> (r: Result<String, ScriptError>)
    requires
        scripts matches Some(t) ==> t.wf() && t@.contains_key(script@),
    ensures
        match r {
            Ok(c) => spec_script_command(match scripts { Some(t) => Some(t@), None => None }, script@) == Ok::<Seq<char>, ScriptError>(c@),
            Err(e) => spec_script_command(match scripts { Some(t) => Some(t@), None => None }, script@) == Err::<Seq<char>, ScriptError>(e),
        },
{
    match scripts {
        None => Ok(String::new()),
        Some(t) => {
            let key = String::from_str(script);
            match t.get(&key) {
                Some(Some(c)) => Ok(c.clone()),
                _ => Err(ScriptError::NotText),
            }
        },
    }
}

/// The program and arguments that run a command in the system's shell:
/// `cmd /C` on Windows, `sh -c` elsewhere.
pub fn shell_invocation(windows: bool, command: &str) -> (r: (String, Vec<String>))
    ensures
        r.0@ == (if windows { "cmd"@ } else { "sh"@ }),
        r.1@.len() == 2,
        r.1@[0]@ == (if windows { "/C"@ } else { "-c"@ }),
        r.1@[1]@ == command@,
{
    let mut args: Vec<String> = Vec::new();
    if windows {
        args.push(String::from_str("/C"));
        args.push(String::from_str(command));
        (String::from_str("cmd"), args)
    } else {
        args.push(String::from_str("-c"));
        args.push(String::from_str(command));
        (String::from_str("sh"), args)
    }
}

/// What `str::to_lowercase` makes of a text (full Unicode lower-casing).
pub uninterp spec fn lowercase(s: Seq<char>) -> Seq<char>;

/// What `str::to_uppercase` makes of a text (full Unicode upper-casing).
pub uninterp spec fn uppercase(s: Seq<char>) -> Seq<char>;

/// `str::to_lowercase`. Claimed: the result is the named lower-casing of
/// the text.
#[verifier::external_body]
fn to_lowercase(s: &str) -> (r: String)
    ensures
        r@ == lowercase(s@),
{
    s.to_lowercase()
}

/// `str::to_uppercase`. Claimed: the result is the named upper-casing of
/// the text.
#[verifier::external_body]
fn to_uppercase(s: &str) -> (r: String)
    ensures
        r@ == uppercase(s@),
{
    s.to_uppercase()
}

/// The project that `init` describes in `package.json`.
pub struct Project {
    pub name: String,
    pub version: String,
    pub description: String,
    pub entry_point: String,
    pub repo_url: String,
    pub author: String,
    pub license: String,
    pub private: bool,
}

impl Project {
    /// A project with the given details.
    pub fn new_project(
        name: String,
        version: String,
        description: String,
        entry_point: String,
        repo_url: String,
        author: String,
        license: String,
        private: bool,
    ) -> (p: Project)
        ensures
            p.name == name,
            p.version == version,
            p.description == description,
            p.entry_point == entry_point,
            p.repo_url == repo_url,
            p.author == author,
            p.license == license,
            p.private == private,
    {
        Project { name, version, description, entry_point, repo_url, author, license, private }
    }

    /// The project from the answers to `init`'s questions: every answer is
    /// trimmed, the entry point is lower-cased, the licence upper-cased,
    /// and the project is private whatever was answered.
    pub fn from_answers(
        name: &str,
        version: &str,
        description: &str,
        entry_point: &str,
        repo_url: &str,
        author: &str,
        license: &str,
    ) -> (p: Project)
        ensures
            p.name@ == trim(name@),
            p.version@ == trim(version@),
            p.description@ == trim(description@),
            p.entry_point@ == lowercase(trim(entry_point@)),
            p.repo_url@ == trim(repo_url@),
            p.author@ == trim(author@),
            p.license@ == uppercase(trim(license@)),
            p.private,
    {
        let ep = trim_str(entry_point);
        let lic = trim_str(license);
        Project::new_project(
            trim_str(name),
            trim_str(version),
            trim_str(description),
            to_lowercase(ep.as_str()),
            trim_str(repo_url),
            trim_str(author),
            to_uppercase(lic.as_str()),
            true,
        )
    }
}

/// Why `package.json`, or a part of it, cannot be read.
pub enum ManifestError {
    /// The text is no JSON object.
    NotAnObject,
    /// The member read is no JSON object.
    MemberNotAnObject,
    /// A value that must be a string is not.
    NotText,
}

/// The members of the object under `key` in the JSON object `text` (each
/// value as its JSON text); `None` when there is no such member.
pub open spec fn spec_member_object(text: Seq<char>, key: Seq<char>) -> Result<Option<Seq<(Seq<char>, Seq<char>)>>, ManifestError> {
    match json_members(text) {
        None => Err(ManifestError::NotAnObject),
        Some(ms) => match lookup(ms, key) {
            None => Ok(None),
            Some(t) => match json_members(t) {
                None => Err(ManifestError::MemberNotAnObject),
                Some(x) => Ok(Some(x)),
            },
        },
    }
}

/// The members of the object under `key` in the JSON object `text`.
pub fn member_object(text: &str, key: &str) -> (r: Result<Option<Vec<(String, String)>>, ManifestError>)
    ensures
        match r {
            Ok(Some(v)) => spec_member_object(text@, key@) == Ok::<Option<Seq<(Seq<char>, Seq<char>)>>, ManifestError>(Some(member_views(v@))),
            Ok(None) => spec_member_object(text@, key@) == Ok::<Option<Seq<(Seq<char>, Seq<char>)>>, ManifestError>(None),
            Err(e) => spec_member_object(text@, key@) == Err::<Option<Seq<(Seq<char>, Seq<char>)>>, ManifestError>(e),
        },
{
    if parse_json_members(text).is_none() {
        return Err(ManifestError::NotAnObject);
    }
    match get_field(text, key) {
        None => Ok(None),
        Some(t) => match parse_json_members(t.as_str()) {
            None => Err(ManifestError::MemberNotAnObject),
            Some(x) => Ok(Some(x)),
        },
    }
}

/// A string value, or `None` for a value of another kind.
pub open spec fn string_or_none(o: Option<String>) -> Option<Seq<char>> {
    match o {
        Some(s) => Some(s@),
        None => None,
    }
}

/// Each member with the content of its value when that is a JSON string.
pub open spec fn string_members(ms: Seq<(Seq<char>, Seq<char>)>) -> Seq<(Seq<char>, Option<Seq<char>>)> {
    Seq::new(ms.len(), |i: int| (ms[i].0, json_string(ms[i].1)))
}

/// The dependencies that `package.json` (the text) lists, each with its
/// version when that is a string; `None` when it lists none.
pub open spec fn spec_manifest_dependencies(text: Seq<char>) -> Result<Option<Seq<(Seq<char>, Option<Seq<char>>)>>, ManifestError> {
    match spec_member_object(text, "dependencies"@) {
        Err(e) => Err(e),
        Ok(None) => Ok(None),
        Ok(Some(ds)) => Ok(Some(string_members(ds))),
    }
}

/// Each member with the content of its value when that is a string.
fn with_strings(ms: &Vec<(String, String)>) -> (r: Vec<(String, Option<String>)>)
    ensures
        Seq::new(r@.len(), |i: int| (r@[i].0@, string_or_none(r@[i].1))) == string_members(member_views(ms@)),
{
    let mut r: Vec<(String, Option<String>)> = Vec::new();
    let mut i: usize = 0;
    while i < ms.len()
        invariant
            i <= ms@.len(),
            r@.len() == i,
            forall|j: int| 0 <= j < i ==> (#[trigger] r@[j]).0@ == ms@[j].0@ && string_or_none(r@[j].1) == json_string(ms@[j].1@),
        decreases ms@.len() - i,
    {
        let v = parse_json_string(ms[i].1.as_str());
        r.push((ms[i].0.clone(), v));
        i = i + 1;
    }
    assert(Seq::new(r@.len(), |j: int| (r@[j].0@, string_or_none(r@[j].1))) =~= string_members(member_views(ms@)));
    r
}

/// The dependencies that `package.json`, given as its text, lists.
pub fn manifest_dependencies(text: &str) -> (r: Result<Option<Vec<(String, Option<String>)>>, ManifestError>)
    ensures
        match r {
            Ok(Some(v)) => spec_manifest_dependencies(text@) == Ok::<Option<Seq<(Seq<char>, Option<Seq<char>>)>>, ManifestError>(
                Some(Seq::new(v@.len(), |i: int| (v@[i].0@, string_or_none(v@[i].1)))),
            ),
            Ok(None) => spec_manifest_dependencies(text@) == Ok::<Option<Seq<(Seq<char>, Option<Seq<char>>)>>, ManifestError>(None),
            Err(e) => spec_manifest_dependencies(text@) == Err::<Option<Seq<(Seq<char>, Option<Seq<char>>)>>, ManifestError>(e),
        },
{
    match member_object(text, "dependencies") {
        Err(e) => Err(e),
        Ok(None) => Ok(None),
        Ok(Some(ds)) => Ok(Some(with_strings(&ds))),
    }
}

/// The members as a map, each value the content of its JSON string (or
/// `None` when it is no string); a later member of a name wins.
pub open spec fn string_values(ms: Seq<(Seq<char>, Seq<char>)>) -> Map<Seq<char>, Option<Seq<char>>>
    decreases ms.len(),
{
    if ms.len() == 0 {
        Map::<Seq<char>, Option<Seq<char>>>::empty()
    } else {
        string_values(ms.drop_last()).insert(ms.last().0, json_string(ms.last().1))
    }
}

/// The scripts that `package.json` (the text) has, by name; `None` when it
/// has none.
pub open spec fn spec_manifest_scripts(text: Seq<char>) -> Result<Option<Map<Seq<char>, Option<Seq<char>>>>, ManifestError> {
    match spec_member_object(text, "scripts"@) {
        Err(e) => Err(e),
        Ok(None) => Ok(None),
        Ok(Some(ss)) => Ok(Some(string_values(ss))),
    }
}

/// A table of scripts holds these: the same names, each with the same
/// string (or none).
pub open spec fn same_scripts(t: Map<Seq<char>, Option<String>>, m: Map<Seq<char>, Option<Seq<char>>>) -> bool {
    &&& t.dom() == m.dom()
    &&& forall|k: Seq<char>| #[trigger] t.contains_key(k) ==> string_or_none(t[k]) == m[k]
}

/// The scripts of `package.json`, given as its text, for `script_command`.
pub fn manifest_scripts(text: &str) -> (r: Result<Option<Table<Option<String>>>, ManifestError>)
    ensures
        match r {
            Ok(Some(t)) => t.wf() && (spec_manifest_scripts(text@) matches Ok(Some(m)) && same_scripts(t@, m)),
            Ok(None) => spec_manifest_scripts(text@) == Ok::<Option<Map<Seq<char>, Option<Seq<char>>>>, ManifestError>(None),
            Err(e) => spec_manifest_scripts(text@) == Err::<Option<Map<Seq<char>, Option<Seq<char>>>>, ManifestError>(e),
        },
{
    match member_object(text, "scripts") {
        Err(e) => Err(e),
        Ok(None) => Ok(None),
        Ok(Some(ss)) => {
            let ghost all = member_views(ss@);
            let mut t: Table<Option<String>> = Table::new();
            let mut i: usize = 0;
            assert(all.subrange(0, 0) =~= Seq::<(Seq<char>, Seq<char>)>::empty());
            while i < ss.len()
                invariant
                    all == member_views(ss@),
                    i <= ss@.len(),
                    t.wf(),
                    same_scripts(t@, string_values(all.subrange(0, i as int))),
                decreases ss@.len() - i,
            {
                let ghost sub = all.subrange(0, i + 1);
                assert(sub.drop_last() =~= all.subrange(0, i as int));
                let v = parse_json_string(ss[i].1.as_str());
                t.insert(ss[i].0.clone(), v);
                i = i + 1;
            }
            assert(all.subrange(0, ss@.len() as int) =~= all);
            Ok(Some(t))
        },
    }
}

/// The dependencies that `package.json` (the text) lists, each version the
/// content of its string; `None` when it lists none.
pub open spec fn spec_dependency_table(text: Seq<char>) -> Result<Option<Map<Seq<char>, Seq<char>>>, ManifestError> {
    match spec_member_object(text, "dependencies"@) {
        Err(e) => Err(e),
        Ok(None) => Ok(None),
        Ok(Some(ds)) => match decoded(ds) {
            Some(m) => Ok(Some(m)),
            None => Err(ManifestError::NotText),
        },
    }
}

/// The dependencies of `package.json`, given as its text, for
/// `plan_dependency_update`.
pub fn manifest_dependency_table(text: &str) -> (r: Result<Option<Table<String>>, ManifestError>)
    ensures
        match r {
            Ok(Some(t)) => t.wf() && spec_dependency_table(text@) == Ok::<Option<Map<Seq<char>, Seq<char>>>, ManifestError>(Some(t@)),
            Ok(None) => spec_dependency_table(text@) == Ok::<Option<Map<Seq<char>, Seq<char>>>, ManifestError>(None),
            Err(e) => spec_dependency_table(text@) == Err::<Option<Map<Seq<char>, Seq<char>>>, ManifestError>(e),
        },
{
    match member_object(text, "dependencies") {
        Err(e) => Err(e),
        Ok(None) => Ok(None),
        Ok(Some(ds)) => match decode_strings(&ds) {
            Some(t) => Ok(Some(t)),
            None => Err(ManifestError::NotText),
        },
    }
}

/// The JSON text of the `version` of an installed package's
/// `package.json` (the text); `None` when it has none.
pub fn installed_version(text: &str) -> (r: Result<Option<String>, ManifestError>)
    ensures
        match r {
            Ok(Some(v)) => (json_members(text@) matches Some(ms) && lookup(ms, "version"@) == Some(v@)),
            Ok(None) => (json_members(text@) matches Some(ms) && lookup(ms, "version"@) is None),
            Err(e) => json_members(text@) is None && e is NotAnObject,
        },
{
    if parse_json_members(text).is_none() {
        return Err(ManifestError::NotAnObject);
    }
    Ok(get_field(text, "version"))
}

/// The members that an unpacked package's `package.json` (the text) names
/// as its dependencies, or all its members when it has no `dependencies`.
pub open spec fn spec_unpacked_dependencies(text: Seq<char>) -> Result<Seq<(Seq<char>, Seq<char>)>, ManifestError> {
    match spec_member_object(text, "dependencies"@) {
        Err(e) => Err(e),
        Ok(Some(ds)) => Ok(ds),
        Ok(None) => Ok(json_members(text)->0),
    }
}

/// The dependencies of an unpacked package, from its `package.json` text.
pub fn unpacked_dependencies(text: &str) -> (r: Result<Vec<(String, String)>, ManifestError>)
    ensures
        match r {
            Ok(v) => spec_unpacked_dependencies(text@) == Ok::<Seq<(Seq<char>, Seq<char>)>, ManifestError>(member_views(v@)),
            Err(e) => spec_unpacked_dependencies(text@) == Err::<Seq<(Seq<char>, Seq<char>)>, ManifestError>(e),
        },
{
    match member_object(text, "dependencies") {
        Err(e) => Err(e),
        Ok(Some(ds)) => Ok(ds),
        Ok(None) => match parse_json_members(text) {
            Some(ms) => Ok(ms),
            None => Err(ManifestError::NotAnObject),
        },
    }
}

} // verus!
