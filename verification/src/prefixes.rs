//! The prefixes under which a record is counted: the first grapheme cluster
//! of its key and the first two, and, for keys that begin with one of the
//! decorations `(1)` and `[d]`, the decoration and the decoration with the
//! cluster behind it.

use crate::text::{first_grapheme, leading_grapheme};
use vstd::prelude::*;
use vstd::string::*;

verus! {

/// The views of a sequence of strings.
pub open spec fn string_views(strings: Seq<String>) -> Seq<Seq<char>> {
    strings.map_values(|s: String| s@)
}

/// Whether `s` begins with `prefix`.
pub open spec fn starts_with(s: Seq<char>, prefix: Seq<char>) -> bool {
    prefix.len() <= s.len() && s.take(prefix.len() as int) == prefix
}

/// The decoration that `key` begins with, if it begins with one.
pub open spec fn decoration_of(key: Seq<char>) -> Option<Seq<char>> {
    if starts_with(key, "(1)"@) {
        Some("(1)"@)
    } else if starts_with(key, "[d]"@) {
        Some("[d]"@)
    } else {
        None
    }
}

/// The first grapheme cluster of `rest`, if `rest` is not empty.
pub open spec fn next_cluster(rest: Seq<char>) -> Option<Seq<char>> {
    if rest.len() == 0 {
        None
    } else {
        Some(first_grapheme(rest))
    }
}

/// `base`, and `base` with `next` behind it where there is a `next`.
pub open spec fn prefix_pair(base: Seq<char>, next: Option<Seq<char>>) -> Seq<Seq<char>> {
    match next {
        Some(cluster) => seq![base, base + cluster],
        None => seq![base],
    }
}

/// The first grapheme cluster of `key` and the first two; none for the empty
/// key, and only one where the key is a single cluster.
pub open spec fn cluster_prefixes(key: Seq<char>) -> Seq<Seq<char>> {
    if key.len() == 0 {
        Seq::empty()
    } else {
        let first = first_grapheme(key);
        prefix_pair(first, next_cluster(key.skip(first.len() as int)))
    }
}

/// The decoration of `key` and the decoration with the cluster behind it;
/// none for a key without decoration.
pub open spec fn decoration_prefixes(key: Seq<char>) -> Seq<Seq<char>> {
    match decoration_of(key) {
        Some(decoration) => prefix_pair(
            decoration,
            next_cluster(key.skip(decoration.len() as int)),
        ),
        None => Seq::empty(),
    }
}

/// The prefixes under which a record with the key `key` is counted.
pub open spec fn record_prefixes(key: Seq<char>) -> Seq<Seq<char>> {
    cluster_prefixes(key) + decoration_prefixes(key)
}

/// A record is counted under no prefix if its key is empty, and else under at
/// most four, of which the first is the first grapheme cluster of the key.
pub proof fn lemma_record_prefixes_head(key: Seq<char>)
    ensures
        record_prefixes(key).len() <= 4,
        key.len() == 0 ==> record_prefixes(key).len() == 0,
        key.len() > 0 ==> record_prefixes(key).len() > 0 && record_prefixes(key)[0]
            == first_grapheme(key),
{
    reveal_strlit("(1)");
    reveal_strlit("[d]");
}

/// The view of an optional string slice.
pub open spec fn optional_view(s: Option<&str>) -> Option<Seq<char>> {
    match s {
        Some(t) => Some(t@),
        None => None,
    }
}

/// `base`, and `base` with `next` behind it where there is a `next`.
pub fn prefix_pair_of(base: &str, next: Option<&str>) -> (r: Vec<String>)
    ensures
        string_views(r@) == prefix_pair(base@, optional_view(next)),
{
    let mut r: Vec<String> = Vec::new();
    r.push(base.to_owned());
    match next {
        Some(cluster) => {
            let mut longer = base.to_owned();
            longer.append(cluster);
            r.push(longer);
        },
        None => {},
    }
    assert(string_views(r@) =~= prefix_pair(base@, optional_view(next)));
    r
}

/// The decoration that `key` begins with, if it begins with one.
pub fn decoration(key: &str) -> (r: Option<&'static str>)
    ensures
        optional_view(r) == decoration_of(key@),
{
    proof {
        reveal_strlit("(1)");
        reveal_strlit("[d]");
    }
    if key.unicode_len() < 3 {
        return None;
    }
    let a = key.get_char(0);
    let b = key.get_char(1);
    let c = key.get_char(2);
    if a == '(' && b == '1' && c == ')' {
        assert(key@.take(3) =~= "(1)"@);
        Some("(1)")
    } else if a == '[' && b == 'd' && c == ']' {
        assert(key@.take(3) =~= "[d]"@);
        assert(key@.take(3)[0] == '[');
        Some("[d]")
    } else {
        assert(key@.take(3)[0] == a && key@.take(3)[1] == b && key@.take(3)[2] == c);
        None
    }
}

/// `base` and `base` with the first grapheme cluster of what follows it in
/// `key`, where `base` is the first `base_len` characters of `key`.
fn prefixes_from(key: &str, base: &str, base_len: usize) -> (r: Vec<String>)
    requires
        base_len == base@.len(),
        starts_with(key@, base@),
    ensures
        string_views(r@) == prefix_pair(base@, next_cluster(key@.skip(base@.len() as int))),
{
    let rest = key.substring_char(base_len, key.unicode_len());
    assert(rest@ =~= key@.skip(base@.len() as int));
    prefix_pair_of(base, leading_grapheme(rest))
}

/// The prefixes under which a record with the key `key` is counted.
pub fn prefixes_of(key: &str) -> (r: Vec<String>)
    ensures
        string_views(r@) == record_prefixes(key@),
        r@.len() <= 4,
{
    let mut r: Vec<String> = match leading_grapheme(key) {
        Some(first) => prefixes_from(key, first, first.unicode_len()),
        None => Vec::new(),
    };
    assert(string_views(r@) =~= cluster_prefixes(key@));
    match decoration(key) {
        Some(literal) => {
            let mut more = prefixes_from(key, literal, literal.unicode_len());
            let ghost head = r@;
            let ghost tail = more@;
            r.append(&mut more);
            assert(string_views(r@) =~= string_views(head) + string_views(tail));
        },
        None => {
            assert(string_views(r@) =~= record_prefixes(key@));
        },
    }
    r
}

} // verus!
