//! Reading JSON texts: the members of an object (each value kept as its
//! JSON text) and the content of a string, and looking a member up.
use vstd::prelude::*;
use crate::table::Table;

verus! {

/// What `serde_json::from_str::<serde_json::Map<String, Value>>` makes of a
/// text: the members of the JSON object, in the map's order, each value as
/// its compact JSON text (`Value`'s `Display`); `None` when the text is no
/// JSON object.
pub uninterp spec fn json_members(text: Seq<char>) -> Option<Seq<(Seq<char>, Seq<char>)>>;

/// What `serde_json::from_str::<String>` makes of a text: the content of a
/// JSON string, or `None` when the text is no JSON string.
pub uninterp spec fn json_string(text: Seq<char>) -> Option<Seq<char>>;

/// The members as plain values.
pub open spec fn member_views(v: Seq<(String, String)>) -> Seq<(Seq<char>, Seq<char>)> {
    Seq::new(v.len(), |i: int| (v[i].0@, v[i].1@))
}

/// Parses a JSON object with `serde_json::from_str` into a
/// `serde_json::Map<String, Value>` and lists its members, each value
/// written back with `Value::to_string`. Claimed: the result is the named
/// parse of the text.
#[verifier::external_body]
pub(crate) fn parse_json_members(text: &str) -> (r: Option<Vec<(String, String)>>)
    ensures
        match r {
            Some(v) => json_members(text@) == Some(member_views(v@)),
            None => json_members(text@) is None,
        },
{
    match serde_json::from_str::<serde_json::Map<String, serde_json::Value>>(text) {
        Ok(m) => Some(m.into_iter().map(|(k, v)| (k, v.to_string())).collect()),
        Err(_) => None,
    }
}

/// Parses a JSON string with `serde_json::from_str::<String>`. Claimed: the
/// result is the named parse of the text.
#[verifier::external_body]
pub(crate) fn parse_json_string(text: &str) -> (r: Option<String>)
    ensures
        match r {
            Some(s) => json_string(text@) == Some(s@),
            None => json_string(text@) is None,
        },
{
    serde_json::from_str::<String>(text).ok()
}

/// The value of the first member named `key`.
pub open spec fn lookup(ms: Seq<(Seq<char>, Seq<char>)>, key: Seq<char>) -> Option<Seq<char>>
    decreases ms.len(),
{
    if ms.len() == 0 {
        None
    } else if ms[0].0 == key {
        Some(ms[0].1)
    } else {
        lookup(ms.drop_first(), key)
    }
}

/// The JSON text of the member `key` of the object that `text` holds.
pub open spec fn field(text: Seq<char>, key: Seq<char>) -> Option<Seq<char>> {
    match json_members(text) {
        Some(ms) => lookup(ms, key),
        None => None,
    }
}

/// The value of the first member named `key`.
pub fn find_member(ms: &Vec<(String, String)>, key: &str) -> (r: Option<String>)
    ensures
        match r {
            Some(v) => lookup(member_views(ms@), key@) == Some(v@),
            None => lookup(member_views(ms@), key@) is None,
        },
{
    let ghost all = member_views(ms@);
    let k = String::from_str(key);
    let mut i: usize = 0;
    assert(all.skip(0) =~= all);
    while i < ms.len()
        invariant
            all == member_views(ms@),
            i <= ms@.len(),
            k@ == key@,
            lookup(all, key@) == lookup(all.skip(i as int), key@),
        decreases ms@.len() - i,
    {
        let ghost rest = all.skip(i as int);
        assert(rest[0] == (ms@[i as int].0@, ms@[i as int].1@));
        if ms[i].0 == k {
            return Some(ms[i].1.clone());
        }
        assert(rest.drop_first() =~= all.skip(i + 1));
        i = i + 1;
    }
    assert(all.skip(i as int).len() == 0);
    None
}

/// The JSON text of the member `key` of the object that `text` holds, if
/// the text holds an object and the object has that member.
pub fn get_field(text: &str, key: &str) -> (r: Option<String>)
    ensures
        match r {
            Some(v) => field(text@, key@) == Some(v@),
            None => field(text@, key@) is None,
        },
{
    match parse_json_members(text) {
        Some(ms) => find_member(&ms, key),
        None => None,
    }
}

/// The members with each value the content of its JSON string (a later member of a name replacing an earlier one);
/// `None` when a value is no JSON string.
pub open spec fn decoded(ms: Seq<(Seq<char>, Seq<char>)>) -> Option<Map<Seq<char>, Seq<char>>>
    decreases ms.len(),
{
    if ms.len() == 0 {
        Some(Map::<Seq<char>, Seq<char>>::empty())
    } else {
        match (decoded(ms.drop_last()), json_string(ms.last().1)) {
            (Some(m), Some(v)) => Some(m.insert(ms.last().0, v)),
            _ => None,
        }
    }
}

/// The members with each value the content of its JSON string (a later
/// member of a name replacing an earlier one); `None` when a value is no
/// JSON string.
pub fn decode_strings(ms: &Vec<(String, String)>) -> (r: Option<Table<String>>)
    ensures
        match r {
            Some(t) => t.wf() && decoded(member_views(ms@)) == Some(t@),
            None => decoded(member_views(ms@)) is None,
        },
{
    let ghost all = member_views(ms@);
    let mut t: Table<String> = Table::new();
    let mut i: usize = 0;
    assert(all.subrange(0, 0) =~= Seq::<(Seq<char>, Seq<char>)>::empty());
    while i < ms.len()
        invariant
            all == member_views(ms@),
            i <= ms@.len(),
            t.wf(),
            decoded(all.subrange(0, i as int)) == Some(t@),
        decreases ms@.len() - i,
    {
        let ghost sub = all.subrange(0, i + 1);
        assert(sub.drop_last() =~= all.subrange(0, i as int));
        assert(sub.last() == (ms@[i as int].0@, ms@[i as int].1@));
        match parse_json_string(ms[i].1.as_str()) {
            Some(v) => {
                t.insert(ms[i].0.clone(), v);
            },
            None => {
                proof {
                    lemma_decoded_none_grows(all, i as int + 1);
                }
                return None;
            },
        }
        i = i + 1;
    }
    assert(all.subrange(0, ms@.len() as int) =~= all);
    Some(t)
}

/// Once a value is no JSON string, no longer list decodes.
proof fn lemma_decoded_none_grows(all: Seq<(Seq<char>, Seq<char>)>, k: int)
    requires
        0 < k <= all.len(),
        decoded(all.subrange(0, k)) is None,
    ensures
        decoded(all) is None,
    decreases all.len() - k,
{
    if k < all.len() {
        let sub = all.subrange(0, k + 1);
        assert(sub.drop_last() =~= all.subrange(0, k));
        lemma_decoded_none_grows(all, k + 1);
    } else {
        assert(all.subrange(0, k) =~= all);
    }
}

/// Decoding an object of strings keeps every member: the names are
/// exactly the members' names, and each name holds the string of its last
/// member.
pub proof fn lemma_decoded_keeps_members(ms: Seq<(Seq<char>, Seq<char>)>, m: Map<Seq<char>, Seq<char>>)
    requires
        decoded(ms) == Some(m),
    ensures
        forall|i: int| 0 <= i < ms.len() ==> m.contains_key(#[trigger] ms[i].0),
        forall|k: Seq<char>| #[trigger] m.contains_key(k) ==> exists|i: int| 0 <= i < ms.len() && ms[i].0 == k,
        forall|i: int| 0 <= i < ms.len() && (forall|j: int| i < j < ms.len() ==> ms[j].0 != ms[i].0)
            ==> json_string(#[trigger] ms[i].1) == Some(m[ms[i].0]),
    decreases ms.len(),
{
    if ms.len() > 0 {
        let d = ms.drop_last();
        let m0 = decoded(d)->0;
        let last = ms.last();
        lemma_decoded_keeps_members(d, m0);
        assert forall|i: int| 0 <= i < ms.len() implies m.contains_key(#[trigger] ms[i].0) by {
            if i < ms.len() - 1 {
                assert(d[i] == ms[i]);
                assert(m0.contains_key(d[i].0));
            }
        }
        assert forall|k: Seq<char>| #[trigger] m.contains_key(k) implies exists|i: int| 0 <= i < ms.len() && ms[i].0 == k by {
            if k == last.0 {
                assert(ms[ms.len() - 1].0 == k);
            } else {
                assert(m0.contains_key(k));
                let i = choose|i: int| 0 <= i < d.len() && d[i].0 == k;
                assert(ms[i] == d[i]);
            }
        }
        assert forall|i: int| 0 <= i < ms.len() && (forall|j: int| i < j < ms.len() ==> ms[j].0 != ms[i].0)
            implies json_string(#[trigger] ms[i].1) == Some(m[ms[i].0]) by {
            if i < ms.len() - 1 {
                assert(d[i] == ms[i]);
                assert(ms[ms.len() - 1].0 != ms[i].0);
                assert forall|j: int| i < j < d.len() implies d[j].0 != d[i].0 by {
                    assert(d[j] == ms[j]);
                }
            }
        }
    }
}

} // verus!
