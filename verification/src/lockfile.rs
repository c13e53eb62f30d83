//! The `tyr.lock` format: writing an entry for an installed package,
//! reading the file back into the packages it records, and comparing what
//! it records with what `package.json` asks for.
use vstd::prelude::*;
use crate::table::{Table, map_of};
use crate::text::{join_lines, one_line, is_space, trim_start, trim_end, lemma_lines_of_join, lemma_line_state_concat, lemma_trim_start_concat, lemma_trim_end_concat, lemma_trim_end_last, lemma_trim_idempotent, lemma_trim_fixed, lemma_words_after_word, lemma_words_word, lemma_words_trim_end, line_state, lemma_push_contains, string_views, chars_of, string_of, trim, trim_chars, starts_with, split_words, split_lines, words, lines, chars_eq, keep_version_chars, version_chars, views, slice_chars};

verus! {

/// What `serde_json::from_str::<HashMap<String, String>>` makes of a text:
/// the map of a JSON object whose values are all strings, or `None`.
pub uninterp spec fn json_string_map(text: Seq<char>) -> Option<Map<Seq<char>, Seq<char>>>;

/// Calls `serde_json::from_str::<HashMap<String, String>>` and hands the
/// map's entries back in a `Table`. Claimed: the result is present exactly
/// when the named parse succeeds, and then holds that map, one entry per key.
#[verifier::external_body]
fn parse_json_string_map(text: &str) -> (r: Option<Table<String>>)
    ensures
        r is Some == json_string_map(text@) is Some,
        r matches Some(t) ==> t.wf() && t@ == json_string_map(text@).unwrap(),
{
    match serde_json::from_str::<std::collections::HashMap<String, String>>(text) {
        Ok(m) => Some(Table { entries: m.into_iter().collect() }),
        Err(_) => None,
    }
}

/// What `serde_json::to_string` writes for a map of strings (held in a
/// `BTreeMap`, so in key order): the compact JSON object.
pub uninterp spec fn json_object_of(m: Map<Seq<char>, Seq<char>>) -> Seq<char>;

/// Calls `serde_json::to_string` on the table's entries collected into a
/// `BTreeMap<&String, &String>`. Claimed, from serde_json's source: the
/// text is the named one for the table's map (the `BTreeMap` orders the
/// entries by key, so the text depends on the map alone); it is compact
/// JSON on one line (line breaks inside strings are escaped), an object
/// (`{` first, `}` last), and `serde_json::from_str::<HashMap<String,
/// String>>` reads it back as the table's map.
#[verifier::external_body]
fn json_object_text(t: &Table<String>) -> (r: String)
    requires
        t.wf(),
    ensures
        r@ == json_object_of(t@),
        json_string_map(r@) == Some(t@),
        one_line(r@),
        r@.len() >= 2,
        r@[0] == '{',
        r@.last() == '}',
{
    let m: std::collections::BTreeMap<&String, &String> = t.entries.iter().map(|(k, v)| (k, v)).collect();
    serde_json::to_string(&m).unwrap()
}

/// What the lock file records of one package.
pub struct PackageRecord {
    pub version: Seq<char>,
    pub dependencies: Map<Seq<char>, Seq<char>>,
}

/// One package read back from the lock file.
pub struct LockPackage {
    pub version: String,
    pub dependencies: Table<String>,
}

impl View for LockPackage {
    type V = PackageRecord;

    open spec fn view(&self) -> PackageRecord {
        PackageRecord { version: self.version@, dependencies: self.dependencies@ }
    }
}

/// Each value replaced by its digits and dots.
pub open spec fn version_values(m: Map<Seq<char>, Seq<char>>) -> Map<Seq<char>, Seq<char>> {
    Map::new(|k: Seq<char>| m.contains_key(k), |k: Seq<char>| version_chars(m[k]))
}

/// `s` begins with `p`.
pub open spec fn has_prefix(s: Seq<char>, p: Seq<char>) -> bool {
    p.len() <= s.len() && s.subrange(0, p.len() as int) == p
}

/// `s` ends with a colon.
pub open spec fn ends_with_colon(s: Seq<char>) -> bool {
    s.len() > 0 && s.last() == ':'
}

/// The state of reading one package's lines: its version so far, its
/// dependencies so far, and whether the `dependencies` line has been seen.
pub struct PackageScan {
    pub version: Seq<char>,
    pub dependencies: Map<Seq<char>, Seq<char>>,
    pub in_dependencies: bool,
}

/// Reading one more line of a package: blank lines are skipped; a line that
/// starts with `dependencies` opens the dependency part; there, a line that
/// is a JSON object of strings adds its entries (values reduced to digits
/// and dots); before it, a line whose first word is `version` sets the
/// version to the digits and dots of its second word.
pub open spec fn package_step(st: PackageScan, line: Seq<char>) -> PackageScan {
    let t = trim(line);
    if t.len() == 0 {
        st
    } else if has_prefix(t, "dependencies"@) {
        PackageScan { in_dependencies: true, ..st }
    } else if st.in_dependencies {
        match json_string_map(t) {
            Some(m) => PackageScan {
                dependencies: version_values(st.dependencies.union_prefer_right(m)),
                ..st
            },
            None => st,
        }
    } else {
        let w = words(t);
        if w.len() >= 2 && w[0] == "version"@ {
            PackageScan { version: version_chars(w[1]), ..st }
        } else {
            st
        }
    }
}

/// Reading a package's lines in order, from nothing known.
pub open spec fn package_scan(ls: Seq<Seq<char>>) -> PackageScan
    decreases ls.len(),
{
    if ls.len() == 0 {
        PackageScan { version: seq![], dependencies: Map::empty(), in_dependencies: false }
    } else {
        package_step(package_scan(ls.drop_last()), ls.last())
    }
}

/// The package that a group of lines describes.
pub open spec fn package_of_lines(ls: Seq<Seq<char>>) -> PackageRecord {
    let st = package_scan(ls);
    PackageRecord { version: st.version, dependencies: st.dependencies }
}

/// The state of reading a lock file: the packages completed, the name of
/// the package being read and its lines so far.
pub struct LockScan {
    pub packages: Map<Seq<char>, PackageRecord>,
    pub current: Seq<char>,
    pub data: Seq<Seq<char>>,
}

/// The packages once the package being read is completed; a package with
/// no lines is not recorded.
pub open spec fn lock_flush(st: LockScan) -> Map<Seq<char>, PackageRecord> {
    if st.data.len() > 0 {
        st.packages.insert(st.current, package_of_lines(st.data))
    } else {
        st.packages
    }
}

/// Reading one more line of the lock file: blank lines are skipped; a line
/// ending in `:` completes the current package and names the next; any
/// other line belongs to the current package.
pub open spec fn lock_step(st: LockScan, line: Seq<char>) -> LockScan {
    let t = trim(line);
    if t.len() == 0 {
        st
    } else if t.last() == ':' {
        LockScan { packages: lock_flush(st), current: t.drop_last(), data: seq![] }
    } else {
        LockScan { data: st.data.push(t), ..st }
    }
}

/// Reading lines in order from a given state.
pub open spec fn lock_scan_from(st: LockScan, ls: Seq<Seq<char>>) -> LockScan
    decreases ls.len(),
{
    if ls.len() == 0 {
        st
    } else {
        lock_step(lock_scan_from(st, ls.drop_last()), ls.last())
    }
}

/// The state before the first line.
pub open spec fn lock_start() -> LockScan {
    LockScan { packages: Map::empty(), current: seq![], data: seq![] }
}

/// The packages that a lock file's text records, by name.
pub open spec fn parse_lock(text: Seq<char>) -> Map<Seq<char>, PackageRecord> {
    lock_flush(lock_scan_from(lock_start(), lines(text)))
}

/// Every package of the table has distinct dependency names.
pub open spec fn packages_wf(t: Table<LockPackage>) -> bool {
    &&& t.wf()
    &&& forall|i: int| 0 <= i < t.entries@.len() ==> (#[trigger] t.entries@[i]).1.dependencies.wf()
}

/// The digits and dots of `input`, in order.
pub fn remove_non_numbers(input: &str) -> (r: String)
    ensures
        r@ == version_chars(input@),
{
    let cs = chars_of(input);
    let kept = keep_version_chars(&cs);
    string_of(&kept)
}

/// A table with every value reduced to its digits and dots.
fn version_table(t: &Table<String>) -> (r: Table<String>)
    ensures
        r.wf(),
        r@ == version_values(t@),
{
    let mut r: Table<String> = Table::new();
    let mut i: usize = 0;
    while i < t.entries.len()
        invariant
            i <= t.entries@.len(),
            r.wf(),
            r@ == version_values(map_of(t.entries@.subrange(0, i as int))),
        decreases t.entries@.len() - i,
    {
        let ghost before = map_of(t.entries@.subrange(0, i as int));
        assert(t.entries@.subrange(0, i + 1).drop_last() =~= t.entries@.subrange(0, i as int));
        let cs = chars_of(t.entries[i].1.as_str());
        let v = string_of(&keep_version_chars(&cs));
        let k = t.entries[i].0.clone();
        r.insert(k, v);
        assert(version_values(map_of(t.entries@.subrange(0, i + 1))) =~= version_values(before).insert(
            t.entries@[i as int].0@,
            version_chars(t.entries@[i as int].1@),
        ));
        i = i + 1;
    }
    assert(t.entries@.subrange(0, t.entries@.len() as int) =~= t.entries@);
    r
}

/// Adds every entry of `parsed` to `deps`, replacing earlier values.
fn merge_into(deps: &mut Table<String>, parsed: &Table<String>)
    requires
        old(deps).wf(),
    ensures
        final(deps).wf(),
        final(deps)@ == old(deps)@.union_prefer_right(parsed@),
{
    let ghost start = deps@;
    let mut i: usize = 0;
    while i < parsed.entries.len()
        invariant
            i <= parsed.entries@.len(),
            deps.wf(),
            deps@ == start.union_prefer_right(map_of(parsed.entries@.subrange(0, i as int))),
        decreases parsed.entries@.len() - i,
    {
        let ghost before = map_of(parsed.entries@.subrange(0, i as int));
        assert(parsed.entries@.subrange(0, i + 1).drop_last() =~= parsed.entries@.subrange(0, i as int));
        let k = parsed.entries[i].0.clone();
        let v = parsed.entries[i].1.clone();
        deps.insert(k, v);
        assert(start.union_prefer_right(map_of(parsed.entries@.subrange(0, i + 1))) =~=
            start.union_prefer_right(before).insert(parsed.entries@[i as int].0@, parsed.entries@[i as int].1@));
        i = i + 1;
    }
    assert(parsed.entries@.subrange(0, parsed.entries@.len() as int) =~= parsed.entries@);
}

/// Reads the lines of one package, as `package_of_lines` describes.
fn package_from_lines(ls: &Vec<Vec<char>>) -> (p: LockPackage)
    ensures
        p.dependencies.wf(),
        p@ == package_of_lines(views(ls@)),
{
    let deps_word = chars_of("dependencies");
    let version_word = chars_of("version");
    let mut version: Vec<char> = Vec::new();
    let mut deps: Table<String> = Table::new();
    let mut in_deps = false;
    let mut i: usize = 0;
    while i < ls.len()
        invariant
            i <= ls@.len(),
            deps_word@ == "dependencies"@,
            version_word@ == "version"@,
            deps.wf(),
            package_scan(views(ls@).subrange(0, i as int)) == (PackageScan {
                version: version@,
                dependencies: deps@,
                in_dependencies: in_deps,
            }),
        decreases ls@.len() - i,
    {
        assert(views(ls@).subrange(0, i + 1).drop_last() =~= views(ls@).subrange(0, i as int));
        assert(views(ls@).subrange(0, i + 1).last() == ls@[i as int]@);
        let t = trim_chars(&ls[i]);
        if t.len() == 0 {
        } else if starts_with(&t, &deps_word) {
            in_deps = true;
        } else if in_deps {
            let text = string_of(&t);
            match parse_json_string_map(text.as_str()) {
                Some(parsed) => {
                    merge_into(&mut deps, &parsed);
                    deps = version_table(&deps);
                },
                None => {},
            }
        } else {
            let w = split_words(&t);
            if w.len() >= 2 && chars_eq(&w[0], &version_word) {
                assert(views(w@)[0] == w@[0]@);
                assert(views(w@)[1] == w@[1]@);
                version = keep_version_chars(&w[1]);
            }
        }
        i = i + 1;
    }
    assert(views(ls@).subrange(0, ls@.len() as int) =~= views(ls@));
    LockPackage { version: string_of(&version), dependencies: deps }
}

/// Reads the text of one package's lines: its version and its dependencies.
pub fn parse_package_data(data: &str) -> (p: LockPackage)
    ensures
        p.dependencies.wf(),
        p@ == package_of_lines(lines(data@)),
{
    let cs = chars_of(data);
    let ls = split_lines(&cs);
    package_from_lines(&ls)
}

/// Reads a lock file's text into the packages it records.
pub fn parse_lock_file(lock_file_content: &str) -> (r: Table<LockPackage>)
    ensures
        packages_wf(r),
        r@ == parse_lock(lock_file_content@),
{
    let cs = chars_of(lock_file_content);
    let ls = split_lines(&cs);
    let mut packages: Table<LockPackage> = Table::new();
    let mut current: Vec<char> = Vec::new();
    let mut data: Vec<Vec<char>> = Vec::new();
    let mut i: usize = 0;
    assert(views(data@) =~= seq![]);
    assert(views(ls@).subrange(0, 0) =~= seq![]);
    while i < ls.len()
        invariant
            i <= ls@.len(),
            packages_wf(packages),
            lock_scan_from(lock_start(), views(ls@).subrange(0, i as int)) == (LockScan {
                packages: packages@,
                current: current@,
                data: views(data@),
            }),
        decreases ls@.len() - i,
    {
        assert(views(ls@).subrange(0, i + 1).drop_last() =~= views(ls@).subrange(0, i as int));
        assert(views(ls@).subrange(0, i + 1).last() == ls@[i as int]@);
        let t = trim_chars(&ls[i]);
        let ghost st = lock_scan_from(lock_start(), views(ls@).subrange(0, i as int));
        if t.len() == 0 {
        } else if t[t.len() - 1] == ':' {
            assert(t@.last() == ':');
            if data.len() > 0 {
                let p = package_from_lines(&data);
                let name = string_of(&current);
                packages.insert(name, p);
                data = Vec::new();
                assert(views(data@) =~= seq![]);
            }
            current = slice_chars(&t, 0, t.len() - 1);
            assert(current@ =~= t@.drop_last());
        } else {
            let ghost before = views(data@);
            data.push(t);
            assert(views(data@) =~= before.push(t@));
        }
        assert(lock_scan_from(lock_start(), views(ls@).subrange(0, i + 1)) == lock_step(st, ls@[i as int]@));
        assert(lock_step(st, ls@[i as int]@).packages == packages@);
        assert(lock_step(st, ls@[i as int]@).current == current@);
        assert(lock_step(st, ls@[i as int]@).data == views(data@));
        i = i + 1;
    }
    assert(views(ls@).subrange(0, ls@.len() as int) =~= views(ls@));
    if data.len() > 0 {
        let p = package_from_lines(&data);
        let name = string_of(&current);
        packages.insert(name, p);
    }
    packages
}

/// `name@version`, the form in which packages are compared.
pub open spec fn at_join(name: Seq<char>, version: Seq<char>) -> Seq<char> {
    name + "@"@ + version
}

/// `name@version` as a string.
pub fn join_at(name: &String, version: &String) -> (r: String)
    ensures
        r@ == at_join(name@, version@),
{
    let mut r = name.clone();
    r.append("@");
    r.append(version.as_str());
    r
}

/// The strings that one recorded package contributes: its own
/// `name@version` and `dependency@version` for each of its dependencies.
pub open spec fn package_strings(name: Seq<char>, p: PackageRecord, s: Seq<char>) -> bool {
    ||| s == at_join(name, p.version)
    ||| exists|d: Seq<char>| #[trigger] p.dependencies.contains_key(d) && s == at_join(d, p.dependencies[d])
}

/// Every `name@version` and `dependency@version` that the packages record.
pub open spec fn flattened(m: Map<Seq<char>, PackageRecord>) -> Set<Seq<char>> {
    Set::new(|s: Seq<char>| exists|n: Seq<char>| #[trigger] m.contains_key(n) && package_strings(n, m[n], s))
}

/// Whether `v` holds a string equal to `s`.
pub fn contains_string(v: &Vec<String>, s: &String) -> (r: bool)
    ensures
        r == string_views(v@).contains(s@),
{
    let mut i: usize = 0;
    while i < v.len()
        invariant
            i <= v@.len(),
            forall|j: int| 0 <= j < i ==> v@[j]@ != s@,
        decreases v@.len() - i,
    {
        if v[i] == *s {
            assert(string_views(v@)[i as int] == s@);
            return true;
        }
        i = i + 1;
    }
    assert(!string_views(v@).contains(s@)) by {
        if string_views(v@).contains(s@) {
            let j = choose|j: int| 0 <= j < string_views(v@).len() && string_views(v@)[j] == s@;
            assert(v@[j]@ == s@);
        }
    }
    false
}

/// `dependency@version` for each dependency, in order.
pub open spec fn dependency_strings(deps: Seq<(String, String)>) -> Seq<Seq<char>> {
    Seq::new(deps.len(), |k: int| at_join(deps[k].0@, deps[k].1@))
}

/// A package's own `name@version`, then its dependencies' strings.
pub open spec fn entry_strings(e: (String, LockPackage)) -> Seq<Seq<char>> {
    seq![at_join(e.0@, e.1.version@)] + dependency_strings(e.1.dependencies.entries@)
}

/// The strings of the packages, one package after the other.
pub open spec fn flat_strings(es: Seq<(String, LockPackage)>) -> Seq<Seq<char>>
    decreases es.len(),
{
    if es.len() == 0 {
        Seq::<Seq<char>>::empty()
    } else {
        flat_strings(es.drop_last()) + entry_strings(es.last())
    }
}

/// Every `name@version` and `dependency@version` that the packages record,
/// one string for each (a dependency shared by two packages appears twice):
/// package by package, each package's own string before its dependencies'.
pub fn flatten_packages(packages: &Table<LockPackage>) -> (r: Vec<String>)
    requires
        packages_wf(*packages),
    ensures
        string_views(r@) == flat_strings(packages.entries@),
        forall|s: Seq<char>| #[trigger] string_views(r@).contains(s) <==> flattened(packages@).contains(s),
{
    let mut out: Vec<String> = Vec::new();
    let ghost es = packages.entries@;
    let mut i: usize = 0;
    assert(string_views(out@) =~= flat_strings(es.subrange(0, 0)));
    while i < packages.entries.len()
        invariant
            es == packages.entries@,
            packages_wf(*packages),
            i <= es.len(),
            string_views(out@) == flat_strings(es.subrange(0, i as int)),
            forall|s: Seq<char>| #[trigger] string_views(out@).contains(s) <==>
                exists|j: int| 0 <= j < i && package_strings(es[j].0@, es[j].1@, s),
        decreases es.len() - i,
    {
        let name = &packages.entries[i].0;
        let pkg = &packages.entries[i].1;
        assert(pkg.dependencies.wf());
        let ghost out0 = string_views(out@);
        let own = join_at(name, &pkg.version);
        out.push(own);
        assert(string_views(out@) =~= out0.push(at_join(name@, pkg.version@)));
        assert(dependency_strings(pkg.dependencies.entries@.subrange(0, 0)) =~= Seq::<Seq<char>>::empty());
        assert forall|s: Seq<char>| #[trigger] string_views(out@).contains(s) <==> (out0.contains(s) || s == at_join(name@, pkg.version@)) by {
            lemma_push_contains(out0, at_join(name@, pkg.version@), s);
        }
        let ghost deps = pkg.dependencies.entries@;
        proof {
            crate::table::lemma_map_of(deps);
        }
        let mut k: usize = 0;
        while k < pkg.dependencies.entries.len()
            invariant
                es == packages.entries@,
                i < es.len(),
                name == &es[i as int].0,
                pkg == &es[i as int].1,
                deps == pkg.dependencies.entries@,
                pkg.dependencies.wf(),
                k <= deps.len(),
                string_views(out@) == flat_strings(es.subrange(0, i as int)) + seq![at_join(name@, pkg.version@)]
                    + dependency_strings(deps.subrange(0, k as int)),
                forall|d: Seq<char>| pkg@.dependencies.contains_key(d) <==> exists|x: int| 0 <= x < deps.len() && #[trigger] deps[x].0@ == d,
                forall|x: int| 0 <= x < deps.len() ==> pkg@.dependencies[#[trigger] deps[x].0@] == deps[x].1@,
                forall|s: Seq<char>| #[trigger] string_views(out@).contains(s) <==> (
                    (exists|j: int| 0 <= j < i && package_strings(es[j].0@, es[j].1@, s))
                    || s == at_join(name@, pkg.version@)
                    || exists|x: int| 0 <= x < k && s == at_join(deps[x].0@, deps[x].1@)),
            decreases deps.len() - k,
        {
            let ghost out1 = string_views(out@);
            let one = join_at(&pkg.dependencies.entries[k].0, &pkg.dependencies.entries[k].1);
            out.push(one);
            assert(string_views(out@) =~= out1.push(at_join(deps[k as int].0@, deps[k as int].1@)));
            assert(dependency_strings(deps.subrange(0, k + 1)) =~= dependency_strings(deps.subrange(0, k as int)).push(
                at_join(deps[k as int].0@, deps[k as int].1@)));
            assert forall|s: Seq<char>| #[trigger] string_views(out@).contains(s) <==> (
                    (exists|j: int| 0 <= j < i && package_strings(es[j].0@, es[j].1@, s))
                    || s == at_join(name@, pkg.version@)
                    || exists|x: int| 0 <= x < k + 1 && s == at_join(deps[x].0@, deps[x].1@)) by {
                lemma_push_contains(out1, at_join(deps[k as int].0@, deps[k as int].1@), s);
                if string_views(out@).contains(s) && !out1.contains(s) {
                    assert(s == at_join(deps[k as int].0@, deps[k as int].1@));
                }
                if exists|x: int| 0 <= x < k + 1 && s == at_join(deps[x].0@, deps[x].1@) {
                    let x = choose|x: int| 0 <= x < k + 1 && s == at_join(deps[x].0@, deps[x].1@);
                    if x == k {
                        assert(string_views(out@)[out1.len() as int] == s);
                    }
                }
            }
            k = k + 1;
        }
        proof {
            let sub = es.subrange(0, i + 1);
            assert(sub.drop_last() =~= es.subrange(0, i as int));
            assert(sub.last() == es[i as int]);
            assert(deps.subrange(0, deps.len() as int) =~= deps);
            assert(string_views(out@) =~= flat_strings(sub));
        }
        assert forall|s: Seq<char>| #[trigger] string_views(out@).contains(s) <==>
                exists|j: int| 0 <= j < i + 1 && package_strings(es[j].0@, es[j].1@, s) by {
            let here = package_strings(es[i as int].0@, es[i as int].1@, s);
            if here {
                if s != at_join(name@, pkg.version@) {
                    let d = choose|d: Seq<char>| #[trigger] pkg@.dependencies.contains_key(d) && s == at_join(d, pkg@.dependencies[d]);
                    let x = choose|x: int| 0 <= x < deps.len() && #[trigger] deps[x].0@ == d;
                    assert(s == at_join(deps[x].0@, deps[x].1@));
                }
            }
            if exists|x: int| 0 <= x < deps.len() && s == at_join(deps[x].0@, deps[x].1@) {
                let x = choose|x: int| 0 <= x < deps.len() && s == at_join(deps[x].0@, deps[x].1@);
                assert(pkg@.dependencies.contains_key(deps[x].0@));
                assert(here);
            }
            if exists|j: int| 0 <= j < i + 1 && package_strings(es[j].0@, es[j].1@, s) {
                let j = choose|j: int| 0 <= j < i + 1 && package_strings(es[j].0@, es[j].1@, s);
                if j == i {
                    assert(here);
                }
            }
        }
        i = i + 1;
    }
    proof {
        assert(es.subrange(0, es.len() as int) =~= es);
        crate::table::lemma_map_of(es);
        assert forall|s: Seq<char>| #[trigger] string_views(out@).contains(s) <==> flattened(packages@).contains(s) by {
            if string_views(out@).contains(s) {
                let j = choose|j: int| 0 <= j < es.len() && package_strings(es[j].0@, es[j].1@, s);
                assert(packages@.contains_key(es[j].0@));
                assert(packages@[es[j].0@] == es[j].1@);
            }
            if flattened(packages@).contains(s) {
                let n = choose|n: Seq<char>| #[trigger] packages@.contains_key(n) && package_strings(n, packages@[n], s);
                let j = choose|j: int| 0 <= j < es.len() && #[trigger] es[j].0@ == n;
                assert(packages@[es[j].0@] == es[j].1@);
                assert(package_strings(es[j].0@, es[j].1@, s));
            }
        }
    }
    out
}

/// The strings that are in exactly one of `a` and `b`, each once.
pub fn symmetric_difference(a: &Vec<String>, b: &Vec<String>) -> (r: Vec<String>)
    ensures
        string_views(r@).no_duplicates(),
        forall|s: Seq<char>| #[trigger] string_views(r@).contains(s) <==>
            (string_views(a@).contains(s) != string_views(b@).contains(s)),
{
    let mut r: Vec<String> = Vec::new();
    let mut i: usize = 0;
    while i < a.len()
        invariant
            i <= a@.len(),
            string_views(r@).no_duplicates(),
            forall|s: Seq<char>| #[trigger] string_views(r@).contains(s) <==>
                (string_views(a@).subrange(0, i as int).contains(s) && !string_views(b@).contains(s)),
        decreases a@.len() - i,
    {
        let ghost r0 = string_views(r@);
        assert(string_views(a@).subrange(0, i + 1) =~= string_views(a@).subrange(0, i as int).push(a@[i as int]@));
        assert forall|s: Seq<char>| string_views(a@).subrange(0, i + 1).contains(s) <==>
            (string_views(a@).subrange(0, i as int).contains(s) || s == a@[i as int]@) by {
            lemma_push_contains(string_views(a@).subrange(0, i as int), a@[i as int]@, s);
        }
        if !contains_string(b, &a[i]) && !contains_string(&r, &a[i]) {
            r.push(a[i].clone());
            assert(string_views(r@) =~= r0.push(a@[i as int]@));
            assert forall|s: Seq<char>| #[trigger] string_views(r@).contains(s) <==> (r0.contains(s) || s == a@[i as int]@) by {
                lemma_push_contains(r0, a@[i as int]@, s);
            }
        }
        i = i + 1;
    }
    assert(string_views(a@).subrange(0, a@.len() as int) =~= string_views(a@));
    let mut k: usize = 0;
    while k < b.len()
        invariant
            k <= b@.len(),
            string_views(r@).no_duplicates(),
            forall|s: Seq<char>| #[trigger] string_views(r@).contains(s) <==>
                ((string_views(a@).contains(s) && !string_views(b@).contains(s))
                || (string_views(b@).subrange(0, k as int).contains(s) && !string_views(a@).contains(s))),
        decreases b@.len() - k,
    {
        let ghost r0 = string_views(r@);
        assert(string_views(b@).subrange(0, k + 1) =~= string_views(b@).subrange(0, k as int).push(b@[k as int]@));
        assert(string_views(b@).contains(b@[k as int]@)) by {
            assert(string_views(b@)[k as int] == b@[k as int]@);
        }
        assert forall|s: Seq<char>| string_views(b@).subrange(0, k + 1).contains(s) <==>
            (string_views(b@).subrange(0, k as int).contains(s) || s == b@[k as int]@) by {
            lemma_push_contains(string_views(b@).subrange(0, k as int), b@[k as int]@, s);
        }
        if !contains_string(a, &b[k]) && !contains_string(&r, &b[k]) {
            r.push(b[k].clone());
            assert(string_views(r@) =~= r0.push(b@[k as int]@));
            assert forall|s: Seq<char>| #[trigger] string_views(r@).contains(s) <==> (r0.contains(s) || s == b@[k as int]@) by {
                lemma_push_contains(r0, b@[k as int]@, s);
            }
        }
        k = k + 1;
    }
    assert(string_views(b@).subrange(0, b@.len() as int) =~= string_views(b@));
    r
}

/// How `package.json` names a dependency: `name@version`, or
/// `name@UNKNOWN` when its version is not a string.
pub open spec fn manifest_string(name: Seq<char>, version: Option<Seq<char>>) -> Seq<char> {
    match version {
        Some(v) => at_join(name, v),
        None => at_join(name, "UNKNOWN"@),
    }
}

/// A dependency whose version is a string is named by exactly that string
/// (whatever it holds: a number, a range, a tag); `UNKNOWN` stands only for
/// a version that is not a string.
pub proof fn lemma_manifest_string_names_version(name: Seq<char>, version: Option<Seq<char>>)
    ensures
        version matches Some(v) ==> manifest_string(name, version) == name + "@"@ + v,
        version is None ==> manifest_string(name, version) == name + "@"@ + "UNKNOWN"@,
{
}

/// The view of an optional string.
pub open spec fn opt_view(v: Option<String>) -> Option<Seq<char>> {
    match v {
        Some(s) => Some(s@),
        None => None,
    }
}

/// The `name@version` strings of the dependencies that `package.json`
/// lists (each with its version, when that is a string).
pub fn manifest_package_strings(deps: &Vec<(String, Option<String>)>) -> (r: Vec<String>)
    ensures
        r@.len() == deps@.len(),
        forall|i: int| 0 <= i < deps@.len() ==> #[trigger] r@[i]@ == manifest_string(deps@[i].0@, opt_view(deps@[i].1)),
{
    let unknown = String::from_str("UNKNOWN");
    let mut r: Vec<String> = Vec::new();
    let mut i: usize = 0;
    while i < deps.len()
        invariant
            i <= deps@.len(),
            unknown@ == "UNKNOWN"@,
            r@.len() == i,
            forall|j: int| 0 <= j < i ==> #[trigger] r@[j]@ == manifest_string(deps@[j].0@, opt_view(deps@[j].1)),
        decreases deps@.len() - i,
    {
        let s = match &deps[i].1 {
            Some(v) => join_at(&deps[i].0, v),
            None => join_at(&deps[i].0, &unknown),
        };
        r.push(s);
        i = i + 1;
    }
    r
}

/// The set of a manifest's dependency strings.
pub open spec fn manifest_set(deps: Seq<(String, Option<String>)>) -> Set<Seq<char>> {
    Set::new(|s: Seq<char>| exists|i: int| 0 <= i < deps.len() && s == #[trigger] manifest_string(deps[i].0@, opt_view(deps[i].1)))
}

/// The packages to reconcile before installing: those that `package.json`
/// lists as `name@version` but the lock file does not record, and those
/// that the lock file records but `package.json` does not list.
pub fn lockfile_install_difference(manifest_deps: &Vec<(String, Option<String>)>, lock_file_content: &str) -> (r: Vec<String>)
    ensures
        string_views(r@).no_duplicates(),
        forall|s: Seq<char>| #[trigger] string_views(r@).contains(s) <==>
            (manifest_set(manifest_deps@).contains(s) != flattened(parse_lock(lock_file_content@)).contains(s)),
        string_views(r@).to_set() == differs(manifest_set(manifest_deps@), flattened(parse_lock(lock_file_content@))),
{
    let json_packages = manifest_package_strings(manifest_deps);
    let packages = parse_lock_file(lock_file_content);
    let lock_packages = flatten_packages(&packages);
    assert forall|s: Seq<char>| #[trigger] string_views(json_packages@).contains(s) <==> manifest_set(manifest_deps@).contains(s) by {
        if string_views(json_packages@).contains(s) {
            let j = choose|j: int| 0 <= j < string_views(json_packages@).len() && string_views(json_packages@)[j] == s;
            assert(json_packages@[j]@ == s);
        }
        if manifest_set(manifest_deps@).contains(s) {
            let j = choose|j: int| 0 <= j < manifest_deps@.len() && s == #[trigger] manifest_string(manifest_deps@[j].0@, opt_view(manifest_deps@[j].1));
            assert(string_views(json_packages@)[j] == json_packages@[j]@);
        }
    }
    let r = symmetric_difference(&json_packages, &lock_packages);
    assert(string_views(r@).to_set() =~= differs(manifest_set(manifest_deps@), flattened(parse_lock(lock_file_content@))));
    r
}

/// The strings in exactly one of two sets.
pub open spec fn differs(a: Set<Seq<char>>, b: Set<Seq<char>>) -> Set<Seq<char>> {
    Set::new(|s: Seq<char>| a.contains(s) != b.contains(s))
}

/// Reconciling `package.json` with the lock file does not depend on which
/// is taken first, and nothing is to be reconciled exactly when both name
/// the same packages.
pub proof fn lemma_difference_laws(a: Set<Seq<char>>, b: Set<Seq<char>>)
    ensures
        differs(a, b) == differs(b, a),
        differs(a, b) == Set::<Seq<char>>::empty() <==> a == b,
{
    assert(differs(a, b) =~= differs(b, a));
    if a == b {
        assert(differs(a, b) =~= Set::<Seq<char>>::empty());
    }
    if differs(a, b) == Set::<Seq<char>>::empty() {
        assert forall|s: Seq<char>| a.contains(s) == b.contains(s) by {
            if a.contains(s) != b.contains(s) {
                assert(differs(a, b).contains(s));
            }
        }
        assert(a =~= b);
    }
}

/// The lines of a lock-file entry: the package name followed by a colon,
/// then the version, the resolved URL, the integrity checksum, the word
/// `dependencies` and the dependencies' JSON text, each on its own line,
/// and a closing blank line.
pub open spec fn lock_entry_lines(
    name: Seq<char>,
    version: Seq<char>,
    resolved: Seq<char>,
    integrity: Seq<char>,
    dependencies: Seq<char>,
) -> Seq<Seq<char>> {
    seq![
        name + ": "@,
        " version "@ + version,
        "  resolved "@ + resolved,
        "  integrity "@ + integrity,
        " dependencies "@,
        " "@ + dependencies + " "@,
        " "@,
    ]
}

/// The text of a lock-file entry.
pub open spec fn lock_entry_text(
    name: Seq<char>,
    version: Seq<char>,
    resolved: Seq<char>,
    integrity: Seq<char>,
    dependencies: Seq<char>,
) -> Seq<char> {
    join_lines(lock_entry_lines(name, version, resolved, integrity, dependencies))
}

/// `s` with every double quote removed.
pub open spec fn without_quotes(s: Seq<char>) -> Seq<char>
    decreases s.len(),
{
    if s.len() == 0 {
        s
    } else if s.last() == '"' {
        without_quotes(s.drop_last())
    } else {
        without_quotes(s.drop_last()).push(s.last())
    }
}

/// `s` with every double quote removed.
fn remove_quotes(s: &str) -> (r: String)
    ensures
        r@ == without_quotes(s@),
{
    let cs = chars_of(s);
    let mut out: Vec<char> = Vec::new();
    let mut i: usize = 0;
    while i < cs.len()
        invariant
            cs@ == s@,
            i <= cs@.len(),
            out@ == without_quotes(cs@.subrange(0, i as int)),
        decreases cs@.len() - i,
    {
        assert(cs@.subrange(0, i + 1).drop_last() =~= cs@.subrange(0, i as int));
        if cs[i] != '"' {
            out.push(cs[i]);
        }
        i = i + 1;
    }
    assert(cs@.subrange(0, cs@.len() as int) =~= cs@);
    string_of(&out)
}

/// A dependencies text that the lock file reads back as the map `m` (its
/// values reduced to digits and dots): one line, neither ending with a
/// colon nor starting with `dependencies`.
pub open spec fn dependencies_read_back(d: Seq<char>, m: Map<Seq<char>, Seq<char>>) -> bool {
    &&& one_line(d)
    &&& !ends_with_colon(trim(d))
    &&& !has_prefix(trim(d), "dependencies"@)
    &&& recorded_dependencies(d) == version_values(m)
}

/// A JSON object on one line reads back as the map it holds.
proof fn lemma_object_text_reads_back(d: Seq<char>, m: Map<Seq<char>, Seq<char>>)
    requires
        json_string_map(d) == Some(m),
        one_line(d),
        d.len() >= 2,
        d[0] == '{',
        d.last() == '}',
    ensures
        dependencies_read_back(d, m),
{
    reveal_strlit("dependencies");
    lemma_trim_fixed(d);
    if d.len() >= 12 {
        assert(d.subrange(0, 12)[0] == d[0]);
        assert("dependencies"@[0] == 'd');
    }
}

/// The lock file's record of one package.
pub struct LockEntry {
    pub name: String,
    pub version: String,
    pub resolved: String,
    pub integrity: String,
    pub dependencies: String,
}

impl LockEntry {
    /// The text that this entry adds to the lock file.
    pub open spec fn text(&self) -> Seq<char> {
        lock_entry_text(self.name@, self.version@, self.resolved@, self.integrity@, self.dependencies@)
    }

    /// The entry for a package whose registry metadata gives these JSON
    /// texts: the name, version, resolved URL and integrity checksum lose
    /// their double quotes; the dependencies are written as a JSON object,
    /// empty when they hold only the `status` marker of a package without
    /// dependencies, and read back from the lock file as that object's
    /// entries (their values reduced to digits and dots).
    pub fn new(
        name_json: &str,
        version_json: &str,
        resolved_json: &str,
        integrity_json: &str,
        dependencies: &Table<String>,
    ) -> (e: LockEntry)
        requires
            dependencies.wf(),
        ensures
            e.name@ == without_quotes(name_json@),
            e.version@ == without_quotes(version_json@),
            e.resolved@ == without_quotes(resolved_json@),
            e.integrity@ == without_quotes(integrity_json@),
            dependencies_read_back(
                e.dependencies@,
                if dependencies@.contains_key("status"@) {
                    Map::<Seq<char>, Seq<char>>::empty()
                } else {
                    dependencies@
                },
            ),
            e.dependencies@ == json_object_of(
                if dependencies@.contains_key("status"@) {
                    Map::<Seq<char>, Seq<char>>::empty()
                } else {
                    dependencies@
                },
            ),
    {
        let status = String::from_str("status");
        let text = if dependencies.contains_key(&status) {
            let empty: Table<String> = Table::new();
            let t = json_object_text(&empty);
            proof {
                lemma_object_text_reads_back(t@, empty@);
            }
            t
        } else {
            let t = json_object_text(dependencies);
            proof {
                lemma_object_text_reads_back(t@, dependencies@);
            }
            t
        };
        LockEntry {
            name: remove_quotes(name_json),
            version: remove_quotes(version_json),
            resolved: remove_quotes(resolved_json),
            integrity: remove_quotes(integrity_json),
            dependencies: text,
        }
    }

    /// The text of this entry, as it is appended to `tyr.lock`.
    pub fn format_for_lock_file(&self) -> (r: String)
        ensures
            r@ == self.text(),
    {
        let mut l1 = self.name.clone();
        l1.append(": ");
        let mut l2 = String::from_str(" version ");
        l2.append(self.version.as_str());
        let mut l3 = String::from_str("  resolved ");
        l3.append(self.resolved.as_str());
        let mut l4 = String::from_str("  integrity ");
        l4.append(self.integrity.as_str());
        let l5 = String::from_str(" dependencies ");
        let mut l6 = String::from_str(" ");
        l6.append(self.dependencies.as_str());
        l6.append(" ");
        let l7 = String::from_str(" ");
        let mut r = String::new();
        let ghost mut ls = Seq::<Seq<char>>::empty();
        proof {
            reveal_strlit("\n");
            assert(r@ == join_lines(ls));
        }
        r.append(l1.as_str());
        r.append("\n");
        proof {
            lemma_join_lines_push(ls, l1@);
            ls = ls.push(l1@);
            assert(r@ =~= join_lines(ls));
        }
        r.append(l2.as_str());
        r.append("\n");
        proof {
            lemma_join_lines_push(ls, l2@);
            ls = ls.push(l2@);
            assert(r@ =~= join_lines(ls));
        }
        r.append(l3.as_str());
        r.append("\n");
        proof {
            lemma_join_lines_push(ls, l3@);
            ls = ls.push(l3@);
            assert(r@ =~= join_lines(ls));
        }
        r.append(l4.as_str());
        r.append("\n");
        proof {
            lemma_join_lines_push(ls, l4@);
            ls = ls.push(l4@);
            assert(r@ =~= join_lines(ls));
        }
        r.append(l5.as_str());
        r.append("\n");
        proof {
            lemma_join_lines_push(ls, l5@);
            ls = ls.push(l5@);
            assert(r@ =~= join_lines(ls));
        }
        r.append(l6.as_str());
        r.append("\n");
        proof {
            lemma_join_lines_push(ls, l6@);
            ls = ls.push(l6@);
            assert(r@ =~= join_lines(ls));
        }
        r.append(l7.as_str());
        r.append("\n");
        proof {
            lemma_join_lines_push(ls, l7@);
            ls = ls.push(l7@);
            assert(r@ =~= join_lines(ls));
            assert(ls =~= lock_entry_lines(self.name@, self.version@, self.resolved@, self.integrity@, self.dependencies@));
        }
        r
    }
}

/// The version that the lock file gives back for a version text: the
/// digits and dots of its first word, or nothing when it has no word.
pub open spec fn recorded_version(version: Seq<char>) -> Seq<char> {
    let w = words(version);
    if w.len() > 0 {
        version_chars(w[0])
    } else {
        seq![]
    }
}

/// The dependencies that the lock file gives back for a dependencies text:
/// the entries of the JSON object of strings that it holds (values reduced
/// to digits and dots), or none.
pub open spec fn recorded_dependencies(dependencies: Seq<char>) -> Map<Seq<char>, Seq<char>> {
    let t = trim(dependencies);
    if t.len() > 0 {
        match json_string_map(t) {
            Some(m) => version_values(m),
            None => Map::empty(),
        }
    } else {
        Map::empty()
    }
}

/// The fields of an entry can be read back: none spans lines, the version,
/// URL, checksum and dependencies do not end with a colon (which would make
/// their line read as a package name), and the dependencies do not start
/// with the word `dependencies`.
pub open spec fn entry_reads_back(
    name: Seq<char>,
    version: Seq<char>,
    resolved: Seq<char>,
    integrity: Seq<char>,
    dependencies: Seq<char>,
) -> bool {
    &&& one_line(name)
    &&& one_line(version)
    &&& one_line(resolved)
    &&& one_line(integrity)
    &&& one_line(dependencies)
    &&& !ends_with_colon(trim_end(version))
    &&& !ends_with_colon(trim_end(resolved))
    &&& !ends_with_colon(trim_end(integrity))
    &&& !ends_with_colon(trim(dependencies))
    &&& !has_prefix(trim(dependencies), "dependencies"@)
}

proof fn lemma_join_lines_push(ls: Seq<Seq<char>>, x: Seq<char>)
    ensures
        join_lines(ls.push(x)) == join_lines(ls) + x + seq!['\n'],
{
    assert(ls.push(x).drop_last() =~= ls);
}

proof fn lemma_one_line_concat(a: Seq<char>, b: Seq<char>)
    requires
        one_line(a),
        one_line(b),
    ensures
        one_line(a + b),
{
    assert forall|i: int| 0 <= i < (a + b).len() implies (a + b)[i] != '\n' by {
        if i < a.len() {
            assert((a + b)[i] == a[i]);
        } else {
            assert((a + b)[i] == b[i - a.len()]);
        }
    }
}

/// A line made of leading spaces, a keyword, a space and more text trims
/// to the keyword and that text, and its words are the keyword's and the
/// text's.
proof fn lemma_keyword_line(pre: Seq<char>, kw: Seq<char>, rest: Seq<char>)
    requires
        forall|i: int| 0 <= i < pre.len() ==> is_space(#[trigger] pre[i]),
        kw.len() > 0,
        forall|i: int| 0 <= i < kw.len() ==> !is_space(#[trigger] kw[i]),
    ensures
        trim(pre + kw + seq![' '] + rest) == (if trim_end(rest).len() > 0 {
            kw + seq![' '] + trim_end(rest)
        } else {
            kw
        }),
        words(trim(pre + kw + seq![' '] + rest)) == seq![kw] + words(rest),
        trim(pre + kw + seq![' '] + rest).len() > 0,
        trim(pre + kw + seq![' '] + rest)[0] == kw[0],
        trim(trim(pre + kw + seq![' '] + rest)) == trim(pre + kw + seq![' '] + rest),
    decreases pre.len(),
{
    let body = kw + seq![' '] + rest;
    if pre.len() > 0 {
        assert((pre + kw + seq![' '] + rest).drop_first() =~= pre.drop_first() + kw + seq![' '] + rest);
        assert(is_space(pre[0]));
        assert((pre + kw + seq![' '] + rest)[0] == pre[0]);
        lemma_keyword_line(pre.drop_first(), kw, rest);
    } else {
        assert(pre + kw + seq![' '] + rest =~= body);
        assert(body[0] == kw[0]);
        assert(trim_start(body) == body);
        lemma_trim_end_concat(kw + seq![' '], rest);
        lemma_trim_end_last(rest);
        let ks = kw + seq![' '];
        assert(ks.drop_last() =~= kw);
        assert(kw.last() == kw[kw.len() - 1]);
        assert(ks.last() == ' ');
        assert(is_space(ks.last()));
        assert(!is_space(kw.last()));
        assert(trim_end(kw) == kw);
        assert(trim_end(ks) == trim_end(ks.drop_last()));
        assert(trim_end(ks) == kw);
        lemma_words_trim_end(rest);
        if trim_end(rest).len() > 0 {
            lemma_words_after_word(kw, ' ', trim_end(rest));
            assert((kw + seq![' '] + trim_end(rest))[0] == kw[0]);
        } else {
            lemma_words_word(kw);
            assert(words(rest) == words(Seq::<char>::empty()));
            assert(seq![kw] + words(rest) =~= seq![kw]);
        }
        lemma_trim_idempotent(body);
    }
}

/// The lines of a lock text that ends its last line, followed by an entry.
proof fn lemma_entry_lines(prefix: Seq<char>, ls: Seq<Seq<char>>)
    requires
        prefix.len() == 0 || prefix.last() == '\n',
        forall|i: int| 0 <= i < ls.len() ==> one_line(#[trigger] ls[i]),
        ls.len() > 0,
        ls.last().len() > 0,
    ensures
        lines(prefix + join_lines(ls)) == lines(prefix) + ls,
        line_state(prefix).1.len() == 0,
{
    if prefix.len() > 0 {
        assert(line_state(prefix).1 == Seq::<char>::empty());
    }
    lemma_lines_of_join(ls);
    lemma_line_state_concat(prefix, join_lines(ls));
}

/// Reading lines that were read from a state, then more lines, is reading
/// all of them from that state.
pub proof fn lemma_lock_scan_concat(st: LockScan, a: Seq<Seq<char>>, b: Seq<Seq<char>>)
    ensures
        lock_scan_from(st, a + b) == lock_scan_from(lock_scan_from(st, a), b),
    decreases b.len(),
{
    if b.len() == 0 {
        assert(a + b =~= a);
    } else {
        assert((a + b).drop_last() =~= a + b.drop_last());
        lemma_lock_scan_concat(st, a, b.drop_last());
    }
}

proof fn lemma_lock_scan_push(st: LockScan, a: Seq<Seq<char>>, x: Seq<char>)
    ensures
        lock_scan_from(st, a.push(x)) == lock_step(lock_scan_from(st, a), x),
{
    assert(a.push(x).drop_last() =~= a);
}

proof fn lemma_package_scan_push(a: Seq<Seq<char>>, x: Seq<char>)
    ensures
        package_scan(a.push(x)) == package_step(package_scan(a), x),
{
    assert(a.push(x).drop_last() =~= a);
}

/// `" "` followed by a text and `" "` trims to the text's trim.
proof fn lemma_padded_trim(d: Seq<char>)
    ensures
        trim(seq![' '] + d + seq![' ']) == trim(d),
{
    let sp = seq![' '];
    assert(seq![' '] + d + seq![' '] =~= sp + (d + sp));
    assert(is_space(' '));
    assert(trim_start(sp) == trim_start(sp.drop_first()));
    assert(sp.drop_first() =~= Seq::<char>::empty());
    lemma_trim_start_concat(sp, d + sp);
    lemma_trim_start_concat(d, sp);
    assert(trim_end(sp) == trim_end(sp.drop_last()));
    assert(sp.drop_last() =~= Seq::<char>::empty());
    if trim_start(d).len() > 0 {
        lemma_trim_end_concat(trim_start(d), sp);
    }
}

/// The word `dependencies` is not a prefix of a text that starts otherwise.
proof fn lemma_not_dependencies(t: Seq<char>)
    requires
        t.len() > 0,
        t[0] != 'd',
    ensures
        !has_prefix(t, "dependencies"@),
{
    reveal_strlit("dependencies");
    if has_prefix(t, "dependencies"@) {
        assert(t.subrange(0, 12)[0] == t[0]);
    }
}

/// Reading an entry's lines from any state completes the package being
/// read and collects the entry's lines under its name.
proof fn lemma_entry_scan(
    st: LockScan,
    name: Seq<char>,
    version: Seq<char>,
    resolved: Seq<char>,
    integrity: Seq<char>,
    dependencies: Seq<char>,
)
    requires
        entry_reads_back(name, version, resolved, integrity, dependencies),
    ensures
        lock_flush(lock_scan_from(st, lock_entry_lines(name, version, resolved, integrity, dependencies)))
            == lock_flush(st).insert(
                trim_start(name),
                PackageRecord {
                    version: recorded_version(version),
                    dependencies: recorded_dependencies(dependencies),
                },
            ),
{
    reveal_strlit(": ");
    reveal_strlit(" version ");
    reveal_strlit("version");
    reveal_strlit("  resolved ");
    reveal_strlit("  integrity ");
    reveal_strlit(" dependencies ");
    reveal_strlit("dependencies");
    reveal_strlit(" ");
    let sp = seq![' '];
    let ls = lock_entry_lines(name, version, resolved, integrity, dependencies);
    let l1 = name + ": "@;
    let l2 = " version "@ + version;
    let l3 = "  resolved "@ + resolved;
    let l4 = "  integrity "@ + integrity;
    let l5 = " dependencies "@;
    let l6 = " "@ + dependencies + " "@;
    let l7 = " "@;
    assert(ls =~= Seq::<Seq<char>>::empty().push(l1).push(l2).push(l3).push(l4).push(l5).push(l6).push(l7));
    // The name line.
    let x = trim_start(name);
    lemma_trim_start_concat(name, ": "@);
    assert(trim_start(": "@) == ": "@);
    assert(trim_start(l1) =~= x + ": "@);
    lemma_trim_end_concat(x, ": "@);
    assert(trim_end(": "@) == trim_end(": "@.drop_last()));
    assert(": "@.drop_last() =~= seq![':']);
    assert(trim(l1) =~= x + seq![':']);
    assert(trim(l1).drop_last() =~= x);
    // The keyword lines.
    let kv = "version"@;
    let kr = seq!['r', 'e', 's', 'o', 'l', 'v', 'e', 'd'];
    let ki = seq!['i', 'n', 't', 'e', 'g', 'r', 'i', 't', 'y'];
    let kd = "dependencies"@;
    assert(l2 =~= sp + kv + sp + version);
    assert(l3 =~= sp + sp + kr + sp + resolved);
    assert(l4 =~= sp + sp + ki + sp + integrity);
    assert(l5 =~= sp + kd + sp + Seq::<char>::empty());
    assert(sp + sp =~= seq![' ', ' ']);
    lemma_keyword_line(sp, kv, version);
    lemma_keyword_line(seq![' ', ' '], kr, resolved);
    lemma_keyword_line(seq![' ', ' '], ki, integrity);
    lemma_keyword_line(sp, kd, Seq::<char>::empty());
    assert(seq![' ', ' '] + kr + sp + resolved =~= l3);
    assert(seq![' ', ' '] + ki + sp + integrity =~= l4);
    assert(trim(l5) == kd);
    lemma_trim_end_last(version);
    lemma_trim_end_last(resolved);
    lemma_trim_end_last(integrity);
    assert(!ends_with_colon(trim(l2)));
    assert(!ends_with_colon(trim(l3)));
    assert(!ends_with_colon(trim(l4)));
    assert(!ends_with_colon(trim(l5)));
    // The dependencies line and the closing line.
    assert(l6 =~= sp + dependencies + sp);
    lemma_padded_trim(dependencies);
    assert(trim(l6) == trim(dependencies));
    assert(trim_start(l7) == trim_start(l7.drop_first()));
    assert(l7.drop_first() =~= Seq::<char>::empty());
    assert(trim(l7).len() == 0);
    // Reading the seven lines.
    let e = Seq::<Seq<char>>::empty();
    lemma_lock_scan_push(st, e, l1);
    lemma_lock_scan_push(st, e.push(l1), l2);
    lemma_lock_scan_push(st, e.push(l1).push(l2), l3);
    lemma_lock_scan_push(st, e.push(l1).push(l2).push(l3), l4);
    lemma_lock_scan_push(st, e.push(l1).push(l2).push(l3).push(l4), l5);
    lemma_lock_scan_push(st, e.push(l1).push(l2).push(l3).push(l4).push(l5), l6);
    lemma_lock_scan_push(st, e.push(l1).push(l2).push(l3).push(l4).push(l5).push(l6), l7);
    let s1 = lock_step(st, l1);
    assert(lock_scan_from(st, e) == st);
    assert(s1 == LockScan { packages: lock_flush(st), current: x, data: seq![] });
    let s5 = lock_scan_from(st, e.push(l1).push(l2).push(l3).push(l4).push(l5));
    let data4 = seq![trim(l2), trim(l3), trim(l4), kd];
    assert(s5.data =~= data4);
    assert(s5.packages == lock_flush(st));
    assert(s5.current == x);
    let s7 = lock_scan_from(st, ls);
    let data = if trim(dependencies).len() > 0 { data4.push(trim(dependencies)) } else { data4 };
    assert(s7.data == data);
    assert(s7.current == x);
    assert(s7.packages == lock_flush(st));
    assert(lock_flush(s7) == lock_flush(st).insert(x, package_of_lines(data)));
    // Reading the package's lines.
    lemma_entry_package(version, resolved, integrity, dependencies, data4, data);
}

/// The package that an entry's collected lines describe.
proof fn lemma_entry_package(
    version: Seq<char>,
    resolved: Seq<char>,
    integrity: Seq<char>,
    dependencies: Seq<char>,
    data4: Seq<Seq<char>>,
    data: Seq<Seq<char>>,
)
    requires
        !ends_with_colon(trim(dependencies)),
        !has_prefix(trim(dependencies), "dependencies"@),
        data4 == seq![
            trim(" version "@ + version),
            trim("  resolved "@ + resolved),
            trim("  integrity "@ + integrity),
            "dependencies"@,
        ],
        data == (if trim(dependencies).len() > 0 { data4.push(trim(dependencies)) } else { data4 }),
    ensures
        package_of_lines(data) == (PackageRecord {
            version: recorded_version(version),
            dependencies: recorded_dependencies(dependencies),
        }),
{
    reveal_strlit(" version ");
    reveal_strlit("version");
    reveal_strlit("  resolved ");
    reveal_strlit("  integrity ");
    reveal_strlit("dependencies");
    let sp = seq![' '];
    let kv = "version"@;
    let kr = seq!['r', 'e', 's', 'o', 'l', 'v', 'e', 'd'];
    let ki = seq!['i', 'n', 't', 'e', 'g', 'r', 'i', 't', 'y'];
    let kd = "dependencies"@;
    let t2 = trim(" version "@ + version);
    let t3 = trim("  resolved "@ + resolved);
    let t4 = trim("  integrity "@ + integrity);
    assert(" version "@ + version =~= sp + kv + sp + version);
    assert("  resolved "@ + resolved =~= seq![' ', ' '] + kr + sp + resolved);
    assert("  integrity "@ + integrity =~= seq![' ', ' '] + ki + sp + integrity);
    lemma_keyword_line(sp, kv, version);
    lemma_keyword_line(seq![' ', ' '], kr, resolved);
    lemma_keyword_line(seq![' ', ' '], ki, integrity);
    lemma_keyword_line(sp, kd, Seq::<char>::empty());
    assert(sp + kd + sp + Seq::<char>::empty() =~= " dependencies "@) by {
        reveal_strlit(" dependencies ");
    }
    lemma_not_dependencies(t2);
    lemma_not_dependencies(t3);
    lemma_not_dependencies(t4);
    let e = Seq::<Seq<char>>::empty();
    lemma_package_scan_push(e, t2);
    lemma_package_scan_push(e.push(t2), t3);
    lemma_package_scan_push(e.push(t2).push(t3), t4);
    lemma_package_scan_push(e.push(t2).push(t3).push(t4), kd);
    assert(data4 =~= e.push(t2).push(t3).push(t4).push(kd));
    let p0 = package_scan(e);
    let p1 = package_step(p0, t2);
    let w = words(t2);
    assert(w == seq![kv] + words(version));
    if words(version).len() > 0 {
        assert(w[1] == words(version)[0]);
    }
    assert(p1.version == recorded_version(version));
    assert(!p1.in_dependencies);
    assert(p1.dependencies == Map::<Seq<char>, Seq<char>>::empty());
    assert(words(t3)[0] == kr);
    assert(kr != kv);
    assert(words(t4)[0] == ki);
    assert(ki != kv);
    assert(trim(sp + kd + sp + Seq::<char>::empty()) == kd);
    assert(trim(kd) == kd);
    assert(kd.subrange(0, kd.len() as int) =~= kd);
    assert(has_prefix(kd, kd));
    let p4 = package_scan(data4);
    assert(p4.version == recorded_version(version));
    assert(p4.in_dependencies);
    assert(p4.dependencies == Map::<Seq<char>, Seq<char>>::empty());
    let t = trim(dependencies);
    if t.len() > 0 {
        lemma_package_scan_push(data4, t);
        lemma_trim_idempotent(dependencies);
        match json_string_map(t) {
            Some(m) => {
                assert(Map::<Seq<char>, Seq<char>>::empty().union_prefer_right(m) =~= m);
            },
            None => {},
        }
    }
}

/// Appending an entry to a lock file whose last line is complete records
/// the entry's package under its name (leading whitespace removed): the
/// version becomes the digits and dots of the version text's first word,
/// and the dependencies the entries of the JSON object written for them;
/// every other package read from the file stays as it was.
pub proof fn lemma_lock_entry_read_back(
    prefix: Seq<char>,
    name: Seq<char>,
    version: Seq<char>,
    resolved: Seq<char>,
    integrity: Seq<char>,
    dependencies: Seq<char>,
)
    requires
        prefix.len() == 0 || prefix.last() == '\n',
        entry_reads_back(name, version, resolved, integrity, dependencies),
    ensures
        parse_lock(prefix + lock_entry_text(name, version, resolved, integrity, dependencies))
            == parse_lock(prefix).insert(
                trim_start(name),
                PackageRecord {
                    version: recorded_version(version),
                    dependencies: recorded_dependencies(dependencies),
                },
            ),
{
    reveal_strlit(": ");
    reveal_strlit(" version ");
    reveal_strlit("  resolved ");
    reveal_strlit("  integrity ");
    reveal_strlit(" dependencies ");
    reveal_strlit(" ");
    let ls = lock_entry_lines(name, version, resolved, integrity, dependencies);
    assert forall|i: int| 0 <= i < ls.len() implies one_line(#[trigger] ls[i]) by {
        lemma_one_line_concat(name, ": "@);
        lemma_one_line_concat(" version "@, version);
        lemma_one_line_concat("  resolved "@, resolved);
        lemma_one_line_concat("  integrity "@, integrity);
        lemma_one_line_concat(" "@, dependencies);
        lemma_one_line_concat(" "@ + dependencies, " "@);
    }
    assert(ls.last() == " "@);
    lemma_entry_lines(prefix, ls);
    let before = lines(prefix);
    assert(before == line_state(prefix).0);
    lemma_lock_scan_concat(lock_start(), before, ls);
    lemma_entry_scan(lock_scan_from(lock_start(), before), name, version, resolved, integrity, dependencies);
}

/// One lock entry's texts: name, version, resolved URL, integrity
/// checksum and dependencies.
pub type EntryTexts = (Seq<char>, Seq<char>, Seq<char>, Seq<char>, Seq<char>);

/// The lock file that these entries, appended one after the other, make.
pub open spec fn lock_texts(es: Seq<EntryTexts>) -> Seq<char>
    decreases es.len(),
{
    if es.len() == 0 {
        Seq::<char>::empty()
    } else {
        let e = es.last();
        lock_texts(es.drop_last()) + lock_entry_text(e.0, e.1, e.2, e.3, e.4)
    }
}

/// What these entries record: each package under its name, a later entry
/// for a name replacing an earlier one.
pub open spec fn lock_records(es: Seq<EntryTexts>) -> Map<Seq<char>, PackageRecord>
    decreases es.len(),
{
    if es.len() == 0 {
        Map::<Seq<char>, PackageRecord>::empty()
    } else {
        let e = es.last();
        lock_records(es.drop_last()).insert(
            trim_start(e.0),
            PackageRecord { version: recorded_version(e.1), dependencies: recorded_dependencies(e.4) },
        )
    }
}

/// A lock file written entry by entry from nothing reads back as what the
/// entries record: every name once, with the version and dependencies of
/// its last entry.
pub proof fn lemma_lock_entries_read_back(es: Seq<EntryTexts>)
    requires
        forall|i: int| 0 <= i < es.len() ==> entry_reads_back(#[trigger] es[i].0, es[i].1, es[i].2, es[i].3, es[i].4),
    ensures
        parse_lock(lock_texts(es)) == lock_records(es),
        lock_texts(es).len() == 0 || lock_texts(es).last() == '\n',
    decreases es.len(),
{
    if es.len() == 0 {
        assert(lines(Seq::<char>::empty()) =~= Seq::<Seq<char>>::empty());
        assert(lock_flush(lock_start()) =~= Map::<Seq<char>, PackageRecord>::empty());
    } else {
        let e = es.last();
        assert(entry_reads_back(es[es.len() - 1].0, es[es.len() - 1].1, es[es.len() - 1].2, es[es.len() - 1].3, es[es.len() - 1].4));
        lemma_lock_entries_read_back(es.drop_last());
        lemma_lock_entry_read_back(lock_texts(es.drop_last()), e.0, e.1, e.2, e.3, e.4);
        let t = lock_entry_text(e.0, e.1, e.2, e.3, e.4);
        let ls = lock_entry_lines(e.0, e.1, e.2, e.3, e.4);
        assert(ls.drop_last().len() == ls.len() - 1);
        assert(t == join_lines(ls.drop_last()) + ls.last() + seq!['\n']);
        assert((lock_texts(es.drop_last()) + t).last() == '\n');
    }
}

/// The name, version, resolved URL and integrity checksum of an entry can
/// be read back: none spans lines, and none but the name ends with a colon.
pub open spec fn fields_read_back(name: Seq<char>, version: Seq<char>, resolved: Seq<char>, integrity: Seq<char>) -> bool {
    &&& one_line(name)
    &&& one_line(version)
    &&& one_line(resolved)
    &&& one_line(integrity)
    &&& !ends_with_colon(trim_end(version))
    &&& !ends_with_colon(trim_end(resolved))
    &&& !ends_with_colon(trim_end(integrity))
}

/// What entries written with these dependency maps record: each package
/// under its name, with its version's digits and dots and its dependencies'
/// versions reduced the same way; a later entry for a name replaces an
/// earlier one.
pub open spec fn written_records(es: Seq<EntryTexts>, deps: Seq<Map<Seq<char>, Seq<char>>>) -> Map<Seq<char>, PackageRecord>
    decreases es.len(),
{
    if es.len() == 0 || deps.len() == 0 {
        Map::<Seq<char>, PackageRecord>::empty()
    } else {
        let e = es.last();
        written_records(es.drop_last(), deps.drop_last()).insert(
            trim_start(e.0),
            PackageRecord { version: recorded_version(e.1), dependencies: version_values(deps.last()) },
        )
    }
}

/// A lock file written from nothing with `LockEntry::new`, entry by entry,
/// reads back as what was written: every name once, with the version and
/// the dependency map of its last entry (versions reduced to digits and
/// dots).
pub proof fn lemma_written_lock_reads_back(es: Seq<EntryTexts>, deps: Seq<Map<Seq<char>, Seq<char>>>)
    requires
        es.len() == deps.len(),
        forall|i: int| 0 <= i < es.len() ==> fields_read_back(#[trigger] es[i].0, es[i].1, es[i].2, es[i].3)
            && dependencies_read_back(es[i].4, deps[i]),
    ensures
        parse_lock(lock_texts(es)) == written_records(es, deps),
    decreases es.len(),
{
    assert forall|i: int| 0 <= i < es.len() implies entry_reads_back(#[trigger] es[i].0, es[i].1, es[i].2, es[i].3, es[i].4) by {
        assert(fields_read_back(es[i].0, es[i].1, es[i].2, es[i].3));
    }
    assert forall|i: int| 0 <= i < es.len() implies dependencies_read_back(#[trigger] es[i].4, deps[i]) by {
        assert(fields_read_back(es[i].0, es[i].1, es[i].2, es[i].3));
    }
    lemma_lock_entries_read_back(es);
    lemma_records_written(es, deps);
}

proof fn lemma_records_written(es: Seq<EntryTexts>, deps: Seq<Map<Seq<char>, Seq<char>>>)
    requires
        es.len() == deps.len(),
        forall|i: int| 0 <= i < es.len() ==> dependencies_read_back(#[trigger] es[i].4, deps[i]),
    ensures
        lock_records(es) == written_records(es, deps),
    decreases es.len(),
{
    if es.len() > 0 {
        let n = es.len() - 1;
        assert(dependencies_read_back(es[n].4, deps[n]));
        assert forall|i: int| 0 <= i < es.drop_last().len() implies dependencies_read_back(#[trigger] es.drop_last()[i].4, deps.drop_last()[i]) by {
            assert(dependencies_read_back(es[i].4, deps[i]));
        }
        lemma_records_written(es.drop_last(), deps.drop_last());
    }
}

/// Removing quotes distributes over concatenation.
pub proof fn lemma_without_quotes_concat(a: Seq<char>, b: Seq<char>)
    ensures
        without_quotes(a + b) == without_quotes(a) + without_quotes(b),
    decreases b.len(),
{
    if b.len() == 0 {
        assert(a + b =~= a);
        assert(without_quotes(a) + without_quotes(b) =~= without_quotes(a));
    } else {
        assert((a + b).drop_last() =~= a + b.drop_last());
        lemma_without_quotes_concat(a, b.drop_last());
        assert((a + b).last() == b.last());
        if b.last() != '"' {
            assert((without_quotes(a) + without_quotes(b.drop_last())).push(b.last()) =~= without_quotes(a) + without_quotes(b.drop_last()).push(b.last()));
        }
    }
}

/// A text without quotes loses nothing.
pub proof fn lemma_without_quotes_plain(s: Seq<char>)
    requires
        forall|i: int| 0 <= i < s.len() ==> s[i] != '"',
    ensures
        without_quotes(s) == s,
    decreases s.len(),
{
    if s.len() > 0 {
        assert forall|i: int| 0 <= i < s.drop_last().len() implies s.drop_last()[i] != '"' by {
            assert(s.drop_last()[i] == s[i]);
        }
        lemma_without_quotes_plain(s.drop_last());
        assert(s.last() == s[s.len() - 1]);
        assert(s.drop_last().push(s.last()) =~= s);
    }
}

/// Lines joined with newlines between them (no newline after the last).
pub open spec fn join_newline(ls: Seq<Seq<char>>) -> Seq<char> {
    if ls.len() == 0 {
        seq![]
    } else {
        join_lines(ls.drop_last()) + ls.last()
    }
}

/// The lines that the lock file collects for a package (non-blank, each
/// on one line) read as `parse_package_data` reads them joined by
/// newlines: the package that `parse_lock` records is the one that
/// `parse_package_data` makes of that text.
pub proof fn lemma_package_lines_join(ls: Seq<Seq<char>>)
    requires
        forall|i: int| 0 <= i < ls.len() ==> one_line(#[trigger] ls[i]) && ls[i].len() > 0,
    ensures
        lines(join_newline(ls)) == ls,
        package_of_lines(lines(join_newline(ls))) == package_of_lines(ls),
{
    if ls.len() > 0 {
        let d = ls.drop_last();
        assert forall|i: int| 0 <= i < d.len() implies one_line(#[trigger] d[i]) by {
            assert(d[i] == ls[i]);
        }
        lemma_lines_of_join(d);
        let x = ls.last();
        assert(one_line(x) && x.len() > 0) by {
            assert(x == ls[ls.len() - 1]);
        }
        crate::text::lemma_line_state_one_line(x);
        lemma_line_state_concat(join_lines(d), x);
        assert(d.push(x) =~= ls);
    } else {
        assert(lines(join_newline(ls)) =~= ls);
    }
}

} // verus!
