//! The order of semantic versions, as `nodejs_semver::Version` orders them:
//! by major, minor and patch number, then a version without pre-release
//! identifiers above one with them, then the identifiers compared in turn
//! (numeric ones by value and below alphanumeric ones, alphanumeric ones by
//! their text), a shorter list of identifiers below a longer one that
//! begins with it. Each order is a number: negative, zero or positive.
use vstd::prelude::*;
use crate::semvar::{parsed, semver_version_valid};

verus! {

/// A pre-release identifier as a plain value (alphanumeric?, number, text).
pub type IdView = (bool, u64, Seq<char>);

/// A version as its order reads it (major, minor, patch, identifiers).
pub type VersionView = (u64, u64, u64, Seq<IdView>);

/// The order of two numbers.
pub open spec fn order_u64(a: u64, b: u64) -> int {
    if a < b {
        -1
    } else if a > b {
        1
    } else {
        0
    }
}

/// The order of two texts, character by character (the order of `String`:
/// UTF-8 keeps the order of code points).
pub open spec fn order_text(a: Seq<char>, b: Seq<char>) -> int
    decreases a.len(),
{
    if a.len() == 0 {
        if b.len() == 0 {
            0
        } else {
            -1
        }
    } else if b.len() == 0 {
        1
    } else if a[0] < b[0] {
        -1
    } else if a[0] > b[0] {
        1
    } else {
        order_text(a.drop_first(), b.drop_first())
    }
}

/// The order of two pre-release identifiers.
pub open spec fn order_id(a: IdView, b: IdView) -> int {
    if !a.0 {
        if !b.0 {
            order_u64(a.1, b.1)
        } else {
            -1
        }
    } else if !b.0 {
        1
    } else {
        order_text(a.2, b.2)
    }
}

/// The order of two lists of pre-release identifiers, one by one.
pub open spec fn order_ids(a: Seq<IdView>, b: Seq<IdView>) -> int
    decreases a.len(),
{
    if a.len() == 0 {
        if b.len() == 0 {
            0
        } else {
            -1
        }
    } else if b.len() == 0 {
        1
    } else if order_id(a[0], b[0]) != 0 {
        order_id(a[0], b[0])
    } else {
        order_ids(a.drop_first(), b.drop_first())
    }
}

/// The order of two pre-release parts: none is above some.
pub open spec fn order_pre(a: Seq<IdView>, b: Seq<IdView>) -> int {
    if a.len() == 0 {
        if b.len() == 0 {
            0
        } else {
            1
        }
    } else if b.len() == 0 {
        -1
    } else {
        order_ids(a, b)
    }
}

/// The order of two versions.
pub open spec fn order_version(a: VersionView, b: VersionView) -> int {
    if a.0 != b.0 {
        order_u64(a.0, b.0)
    } else if a.1 != b.1 {
        order_u64(a.1, b.1)
    } else if a.2 != b.2 {
        order_u64(a.2, b.2)
    } else {
        order_pre(a.3, b.3)
    }
}

/// Swapping the texts turns the order round.
pub proof fn lemma_text_antisymmetric(a: Seq<char>, b: Seq<char>)
    ensures
        order_text(a, b) == -order_text(b, a),
    decreases a.len(),
{
    if a.len() > 0 && b.len() > 0 && a[0] == b[0] {
        lemma_text_antisymmetric(a.drop_first(), b.drop_first());
    }
}

/// The order of texts is transitive, and a chain is level only where each
/// step is.
pub proof fn lemma_text_transitive(a: Seq<char>, b: Seq<char>, c: Seq<char>)
    requires
        order_text(a, b) <= 0,
        order_text(b, c) <= 0,
    ensures
        order_text(a, c) <= 0,
        order_text(a, c) == 0 ==> order_text(a, b) == 0 && order_text(b, c) == 0,
    decreases a.len(),
{
    if a.len() > 0 && b.len() > 0 && c.len() > 0 && a[0] == b[0] && b[0] == c[0] {
        lemma_text_transitive(a.drop_first(), b.drop_first(), c.drop_first());
    }
}

/// Swapping the identifiers turns the order round.
pub proof fn lemma_id_antisymmetric(a: IdView, b: IdView)
    ensures
        order_id(a, b) == -order_id(b, a),
{
    lemma_text_antisymmetric(a.2, b.2);
}

/// The order of identifiers is transitive.
pub proof fn lemma_id_transitive(a: IdView, b: IdView, c: IdView)
    requires
        order_id(a, b) <= 0,
        order_id(b, c) <= 0,
    ensures
        order_id(a, c) <= 0,
        order_id(a, c) == 0 ==> order_id(a, b) == 0 && order_id(b, c) == 0,
{
    if a.0 && b.0 && c.0 {
        lemma_text_transitive(a.2, b.2, c.2);
    }
}

/// Swapping the lists turns the order round.
pub proof fn lemma_ids_antisymmetric(a: Seq<IdView>, b: Seq<IdView>)
    ensures
        order_ids(a, b) == -order_ids(b, a),
    decreases a.len(),
{
    if a.len() > 0 && b.len() > 0 {
        lemma_id_antisymmetric(a[0], b[0]);
        lemma_ids_antisymmetric(a.drop_first(), b.drop_first());
    }
}

/// The order of identifier lists is transitive.
pub proof fn lemma_ids_transitive(a: Seq<IdView>, b: Seq<IdView>, c: Seq<IdView>)
    requires
        order_ids(a, b) <= 0,
        order_ids(b, c) <= 0,
    ensures
        order_ids(a, c) <= 0,
        order_ids(a, c) == 0 ==> order_ids(a, b) == 0 && order_ids(b, c) == 0,
    decreases a.len(),
{
    if a.len() > 0 && b.len() > 0 && c.len() > 0 {
        lemma_id_antisymmetric(a[0], b[0]);
        lemma_id_antisymmetric(b[0], c[0]);
        lemma_id_antisymmetric(a[0], c[0]);
        if order_id(a[0], b[0]) <= 0 && order_id(b[0], c[0]) <= 0 {
            lemma_id_transitive(a[0], b[0], c[0]);
        }
        if order_id(a[0], b[0]) == 0 && order_id(b[0], c[0]) == 0 {
            lemma_ids_transitive(a.drop_first(), b.drop_first(), c.drop_first());
        }
    }
}

/// Swapping the versions turns the order round.
pub proof fn lemma_version_antisymmetric(a: VersionView, b: VersionView)
    ensures
        order_version(a, b) == -order_version(b, a),
{
    lemma_ids_antisymmetric(a.3, b.3);
}

/// The order of versions is transitive, and a chain is level only where
/// each step is.
pub proof fn lemma_version_transitive(a: VersionView, b: VersionView, c: VersionView)
    requires
        order_version(a, b) <= 0,
        order_version(b, c) <= 0,
    ensures
        order_version(a, c) <= 0,
        order_version(a, c) == 0 ==> order_version(a, b) == 0 && order_version(b, c) == 0,
{
    if a.0 == b.0 && b.0 == c.0 && a.1 == b.1 && b.1 == c.1 && a.2 == b.2 && b.2 == c.2 {
        if a.3.len() > 0 && b.3.len() > 0 && c.3.len() > 0 {
            lemma_ids_transitive(a.3, b.3, c.3);
        }
    }
}

/// The order of two version texts with `nodejs_semver::Version`'s `Ord`
/// (`Version::cmp`, after parsing both with `FromStr`): -1, 0 or 1.
/// Claimed, from the crate's source: it is `order_version` of the two
/// parses (major, minor, patch, then pre-release as above; `Identifier`'s
/// derived order puts numeric identifiers first, and `String`'s order is
/// that of code points).
#[verifier::external_body]
pub(crate) fn version_order(a: &str, b: &str) -> (r: i8)
    requires
        semver_version_valid(a@),
        semver_version_valid(b@),
    ensures
        r == order_version(parsed(a@), parsed(b@)),
{
    let x = a.parse::<nodejs_semver::Version>().unwrap();
    let y = b.parse::<nodejs_semver::Version>().unwrap();
    match x.cmp(&y) {
        std::cmp::Ordering::Less => -1,
        std::cmp::Ordering::Equal => 0,
        std::cmp::Ordering::Greater => 1,
    }
}

} // verus!
