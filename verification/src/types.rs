//! Registry object types, and which of them a query string may name.
use vstd::prelude::*;
use crate::text::{
    all_digits, all_digits_in, ascii_lower, ascii_upper, chars_of, ends_with, ends_with_str,
    find_char, find_from, is_digit, lemma_all_digits_lower, lemma_case_absorb, lemma_find_from,
    lemma_lower_slices, lower_char, lower_vec, starts_with, starts_with_str, upper_vec,
};

verus! {

/// The object types that the registry serves, as listed by `-q types`.
pub open spec fn all_types_spec() -> Seq<Seq<char>> {
    seq![
        "aut-num"@,
        "dns"@,
        "person"@,
        "mntner"@,
        "schema"@,
        "organisation"@,
        "tinc-keyset"@,
        "tinc-key"@,
        "key-cert"@,
        "as-set"@,
        "route-set"@,
        "inetnum"@,
        "inet6num"@,
        "route"@,
        "route6"@,
        "as-block"@,
    ]
}

/// The view of a list of string slices.
pub open spec fn strs_view(v: Seq<&str>) -> Seq<Seq<char>> {
    v.map_values(|t: &str| t@)
}

/// The object types that the registry serves.
pub fn all_types() -> (r: Vec<&'static str>)
    ensures
        strs_view(r@) == all_types_spec(),
{
    let r = vec![
        "aut-num",
        "dns",
        "person",
        "mntner",
        "schema",
        "organisation",
        "tinc-keyset",
        "tinc-key",
        "key-cert",
        "as-set",
        "route-set",
        "inetnum",
        "inet6num",
        "route",
        "route6",
        "as-block",
    ];
    assert(strs_view(r@) =~= all_types_spec());
    r
}

/// `[x]` when `b` holds, else nothing.
pub open spec fn when(b: bool, x: Seq<char>) -> Seq<Seq<char>> {
    if b {
        seq![x]
    } else {
        seq![]
    }
}

/// An AS block name: two runs of digits joined by the first `_`.
pub open spec fn is_as_block_spec(s: Seq<char>) -> bool {
    let i = find_from(s, '_', 0);
    &&& i < s.len()
    &&& 0 < i
    &&& i + 1 < s.len()
    &&& all_digits(s.take(i))
    &&& all_digits(s.skip(i + 1))
}

/// `AS` followed by at least one digit, and nothing else.
pub open spec fn is_autnum_name(u: Seq<char>) -> bool {
    starts_with(u, "AS"@) && u.len() > 2 && all_digits(u.skip(2))
}

/// `+` followed by at least one digit, and nothing else.
pub open spec fn is_telephony_number(s: Seq<char>) -> bool {
    s.len() > 1 && s[0] == '+' && all_digits(s.skip(1))
}

/// The object types that `object` may name, in the order in which the
/// registry is searched.
pub open spec fn candidate_types_spec(object: Seq<char>) -> Seq<Seq<char>> {
    let u = ascii_upper(object);
    let l = ascii_lower(object);
    when(is_autnum_name(u), "aut-num"@)
    + when(ends_with(l, ".dn42"@), "dns"@)
    + when(ends_with(u, "-DN42"@) || ends_with(u, "-NEONETWORK"@), "person"@)
    + when(ends_with(u, "-MNT"@), "mntner"@)
    + when(ends_with(u, "-SCHEMA"@), "schema"@)
    + when(starts_with(u, "ORG-"@), "organisation"@)
    + when(starts_with(u, "SET-"@) && ends_with(u, "-TINC"@), "tinc-keyset"@)
    + when(!(starts_with(u, "SET-"@) && ends_with(u, "-TINC"@)) && ends_with(u, "-TINC"@), "tinc-key"@)
    + when(starts_with(u, "PGPKEY-"@), "key-cert"@)
    + when(starts_with(u, "AS"@), "as-set"@)
    + when(starts_with(u, "RS-"@), "route-set"@)
    + when(is_as_block_spec(u), "as-block"@)
    + when(is_telephony_number(object), "telephony"@)
}

proof fn lemma_contains_add<A>(a: Seq<A>, b: Seq<A>, y: A)
    ensures
        (a + b).contains(y) == (a.contains(y) || b.contains(y)),
{
    if (a + b).contains(y) {
        let k = choose|k: int| 0 <= k < (a + b).len() && (a + b)[k] == y;
        if k < a.len() {
            assert(a[k] == y);
        } else {
            assert(b[k - a.len()] == y);
        }
    }
    if a.contains(y) {
        let k = choose|k: int| 0 <= k < a.len() && a[k] == y;
        assert((a + b)[k] == y);
    }
    if b.contains(y) {
        let k = choose|k: int| 0 <= k < b.len() && b[k] == y;
        assert((a + b)[a.len() + k] == y);
    }
}

proof fn lemma_when_contains(b: bool, x: Seq<char>, y: Seq<char>)
    ensures
        ({ when(b, x).contains(y) == (b && x === y) }),
{
    if b {
        assert(when(b, x)[0] == x);
    }
}

/// Whether `s` holds `y`; opaque, so that long lists are not unfolded.
#[verifier::opaque]
spec fn has(s: Seq<Seq<char>>, y: Seq<char>) -> bool {
    s.contains(y)
}

proof fn lemma_has_when(b: bool, x: Seq<char>, y: Seq<char>)
    ensures
        ({ has(when(b, x), y) == (b && x === y) }),
{
    reveal(has);
    lemma_when_contains(b, x, y);
}

proof fn lemma_has_push_when(a: Seq<Seq<char>>, b: bool, x: Seq<char>, y: Seq<char>)
    ensures
        ({ has(a + when(b, x), y) == (has(a, y) || (b && x === y)) }),
{
    reveal(has);
    lemma_when_contains(b, x, y);
    lemma_contains_add(a, when(b, x), y);
}

/// Which types a list of candidates built from thirteen conditions contains.
proof fn lemma_candidates_contain(b0: bool, b1: bool, b2: bool, b3: bool, b4: bool, b5: bool, b6: bool, b7: bool, b8: bool, b9: bool, b10: bool, b11: bool, b12: bool, y: Seq<char>)
    ensures
        ({
            (when(b0, "aut-num"@) + when(b1, "dns"@) + when(b2, "person"@) + when(b3, "mntner"@) + when(b4, "schema"@) + when(b5, "organisation"@) + when(b6, "tinc-keyset"@) + when(b7, "tinc-key"@) + when(b8, "key-cert"@) + when(b9, "as-set"@) + when(b10, "route-set"@) + when(b11, "as-block"@) + when(b12, "telephony"@)).contains(y) == ((b0 && "aut-num"@ === y)
            || (b1 && "dns"@ === y)
            || (b2 && "person"@ === y)
            || (b3 && "mntner"@ === y)
            || (b4 && "schema"@ === y)
            || (b5 && "organisation"@ === y)
            || (b6 && "tinc-keyset"@ === y)
            || (b7 && "tinc-key"@ === y)
            || (b8 && "key-cert"@ === y)
            || (b9 && "as-set"@ === y)
            || (b10 && "route-set"@ === y)
            || (b11 && "as-block"@ === y)
            || (b12 && "telephony"@ === y))
        }),
{
    let s0 = when(b0, "aut-num"@);
    lemma_has_when(b0, "aut-num"@, y);
    let s1 = s0 + when(b1, "dns"@);
    lemma_has_push_when(s0, b1, "dns"@, y);
    let s2 = s1 + when(b2, "person"@);
    lemma_has_push_when(s1, b2, "person"@, y);
    let s3 = s2 + when(b3, "mntner"@);
    lemma_has_push_when(s2, b3, "mntner"@, y);
    let s4 = s3 + when(b4, "schema"@);
    lemma_has_push_when(s3, b4, "schema"@, y);
    let s5 = s4 + when(b5, "organisation"@);
    lemma_has_push_when(s4, b5, "organisation"@, y);
    let s6 = s5 + when(b6, "tinc-keyset"@);
    lemma_has_push_when(s5, b6, "tinc-keyset"@, y);
    let s7 = s6 + when(b7, "tinc-key"@);
    lemma_has_push_when(s6, b7, "tinc-key"@, y);
    let s8 = s7 + when(b8, "key-cert"@);
    lemma_has_push_when(s7, b8, "key-cert"@, y);
    let s9 = s8 + when(b9, "as-set"@);
    lemma_has_push_when(s8, b9, "as-set"@, y);
    let s10 = s9 + when(b10, "route-set"@);
    lemma_has_push_when(s9, b10, "route-set"@, y);
    let s11 = s10 + when(b11, "as-block"@);
    lemma_has_push_when(s10, b11, "as-block"@, y);
    let s12 = s11 + when(b12, "telephony"@);
    lemma_has_push_when(s11, b12, "telephony"@, y);
    assert(s12 == when(b0, "aut-num"@) + when(b1, "dns"@) + when(b2, "person"@) + when(b3, "mntner"@) + when(b4, "schema"@) + when(b5, "organisation"@) + when(b6, "tinc-keyset"@) + when(b7, "tinc-key"@) + when(b8, "key-cert"@) + when(b9, "as-set"@) + when(b10, "route-set"@) + when(b11, "as-block"@) + when(b12, "telephony"@));
    reveal(has);
}

/// A list built from thirteen conditions holds a type exactly when that
/// type's condition holds: the types are distinct.
proof fn lemma_candidates_pick(b0: bool, b1: bool, b2: bool, b3: bool, b4: bool, b5: bool, b6: bool, b7: bool, b8: bool, b9: bool, b10: bool, b11: bool, b12: bool)
    ensures
        ({
            let c = when(b0, "aut-num"@) + when(b1, "dns"@) + when(b2, "person"@) + when(b3, "mntner"@) + when(b4, "schema"@) + when(b5, "organisation"@) + when(b6, "tinc-keyset"@) + when(b7, "tinc-key"@) + when(b8, "key-cert"@) + when(b9, "as-set"@) + when(b10, "route-set"@) + when(b11, "as-block"@) + when(b12, "telephony"@);
            &&& c.contains("aut-num"@) == b0
            &&& c.contains("dns"@) == b1
            &&& c.contains("person"@) == b2
            &&& c.contains("mntner"@) == b3
            &&& c.contains("schema"@) == b4
            &&& c.contains("organisation"@) == b5
            &&& c.contains("tinc-keyset"@) == b6
            &&& c.contains("tinc-key"@) == b7
            &&& c.contains("key-cert"@) == b8
            &&& c.contains("as-set"@) == b9
            &&& c.contains("route-set"@) == b10
            &&& c.contains("as-block"@) == b11
            &&& c.contains("telephony"@) == b12
        }),
{
    reveal_strlit("aut-num");
    reveal_strlit("dns");
    reveal_strlit("person");
    reveal_strlit("mntner");
    reveal_strlit("schema");
    reveal_strlit("organisation");
    reveal_strlit("tinc-keyset");
    reveal_strlit("tinc-key");
    reveal_strlit("key-cert");
    reveal_strlit("as-set");
    reveal_strlit("route-set");
    reveal_strlit("as-block");
    reveal_strlit("telephony");
    assert("aut-num"@ !== "dns"@) by { assert("aut-num"@.len() != "dns"@.len() || "aut-num"@[0] != "dns"@[0]); }
    assert("aut-num"@ !== "person"@) by { assert("aut-num"@.len() != "person"@.len() || "aut-num"@[0] != "person"@[0]); }
    assert("aut-num"@ !== "mntner"@) by { assert("aut-num"@.len() != "mntner"@.len() || "aut-num"@[0] != "mntner"@[0]); }
    assert("aut-num"@ !== "schema"@) by { assert("aut-num"@.len() != "schema"@.len() || "aut-num"@[0] != "schema"@[0]); }
    assert("aut-num"@ !== "organisation"@) by { assert("aut-num"@.len() != "organisation"@.len() || "aut-num"@[0] != "organisation"@[0]); }
    assert("aut-num"@ !== "tinc-keyset"@) by { assert("aut-num"@.len() != "tinc-keyset"@.len() || "aut-num"@[0] != "tinc-keyset"@[0]); }
    assert("aut-num"@ !== "tinc-key"@) by { assert("aut-num"@.len() != "tinc-key"@.len() || "aut-num"@[0] != "tinc-key"@[0]); }
    assert("aut-num"@ !== "key-cert"@) by { assert("aut-num"@.len() != "key-cert"@.len() || "aut-num"@[0] != "key-cert"@[0]); }
    assert("aut-num"@ !== "as-set"@) by { assert("aut-num"@.len() != "as-set"@.len() || "aut-num"@[0] != "as-set"@[0]); }
    assert("aut-num"@ !== "route-set"@) by { assert("aut-num"@.len() != "route-set"@.len() || "aut-num"@[0] != "route-set"@[0]); }
    assert("aut-num"@ !== "as-block"@) by { assert("aut-num"@.len() != "as-block"@.len() || "aut-num"@[0] != "as-block"@[0]); }
    assert("aut-num"@ !== "telephony"@) by { assert("aut-num"@.len() != "telephony"@.len() || "aut-num"@[0] != "telephony"@[0]); }
    assert("dns"@ !== "person"@) by { assert("dns"@.len() != "person"@.len() || "dns"@[0] != "person"@[0]); }
    assert("dns"@ !== "mntner"@) by { assert("dns"@.len() != "mntner"@.len() || "dns"@[0] != "mntner"@[0]); }
    assert("dns"@ !== "schema"@) by { assert("dns"@.len() != "schema"@.len() || "dns"@[0] != "schema"@[0]); }
    assert("dns"@ !== "organisation"@) by { assert("dns"@.len() != "organisation"@.len() || "dns"@[0] != "organisation"@[0]); }
    assert("dns"@ !== "tinc-keyset"@) by { assert("dns"@.len() != "tinc-keyset"@.len() || "dns"@[0] != "tinc-keyset"@[0]); }
    assert("dns"@ !== "tinc-key"@) by { assert("dns"@.len() != "tinc-key"@.len() || "dns"@[0] != "tinc-key"@[0]); }
    assert("dns"@ !== "key-cert"@) by { assert("dns"@.len() != "key-cert"@.len() || "dns"@[0] != "key-cert"@[0]); }
    assert("dns"@ !== "as-set"@) by { assert("dns"@.len() != "as-set"@.len() || "dns"@[0] != "as-set"@[0]); }
    assert("dns"@ !== "route-set"@) by { assert("dns"@.len() != "route-set"@.len() || "dns"@[0] != "route-set"@[0]); }
    assert("dns"@ !== "as-block"@) by { assert("dns"@.len() != "as-block"@.len() || "dns"@[0] != "as-block"@[0]); }
    assert("dns"@ !== "telephony"@) by { assert("dns"@.len() != "telephony"@.len() || "dns"@[0] != "telephony"@[0]); }
    assert("person"@ !== "mntner"@) by { assert("person"@.len() != "mntner"@.len() || "person"@[0] != "mntner"@[0]); }
    assert("person"@ !== "schema"@) by { assert("person"@.len() != "schema"@.len() || "person"@[0] != "schema"@[0]); }
    assert("person"@ !== "organisation"@) by { assert("person"@.len() != "organisation"@.len() || "person"@[0] != "organisation"@[0]); }
    assert("person"@ !== "tinc-keyset"@) by { assert("person"@.len() != "tinc-keyset"@.len() || "person"@[0] != "tinc-keyset"@[0]); }
    assert("person"@ !== "tinc-key"@) by { assert("person"@.len() != "tinc-key"@.len() || "person"@[0] != "tinc-key"@[0]); }
    assert("person"@ !== "key-cert"@) by { assert("person"@.len() != "key-cert"@.len() || "person"@[0] != "key-cert"@[0]); }
    assert("person"@ !== "as-set"@) by { assert("person"@.len() != "as-set"@.len() || "person"@[0] != "as-set"@[0]); }
    assert("person"@ !== "route-set"@) by { assert("person"@.len() != "route-set"@.len() || "person"@[0] != "route-set"@[0]); }
    assert("person"@ !== "as-block"@) by { assert("person"@.len() != "as-block"@.len() || "person"@[0] != "as-block"@[0]); }
    assert("person"@ !== "telephony"@) by { assert("person"@.len() != "telephony"@.len() || "person"@[0] != "telephony"@[0]); }
    assert("mntner"@ !== "schema"@) by { assert("mntner"@.len() != "schema"@.len() || "mntner"@[0] != "schema"@[0]); }
    assert("mntner"@ !== "organisation"@) by { assert("mntner"@.len() != "organisation"@.len() || "mntner"@[0] != "organisation"@[0]); }
    assert("mntner"@ !== "tinc-keyset"@) by { assert("mntner"@.len() != "tinc-keyset"@.len() || "mntner"@[0] != "tinc-keyset"@[0]); }
    assert("mntner"@ !== "tinc-key"@) by { assert("mntner"@.len() != "tinc-key"@.len() || "mntner"@[0] != "tinc-key"@[0]); }
    assert("mntner"@ !== "key-cert"@) by { assert("mntner"@.len() != "key-cert"@.len() || "mntner"@[0] != "key-cert"@[0]); }
    assert("mntner"@ !== "as-set"@) by { assert("mntner"@.len() != "as-set"@.len() || "mntner"@[0] != "as-set"@[0]); }
    assert("mntner"@ !== "route-set"@) by { assert("mntner"@.len() != "route-set"@.len() || "mntner"@[0] != "route-set"@[0]); }
    assert("mntner"@ !== "as-block"@) by { assert("mntner"@.len() != "as-block"@.len() || "mntner"@[0] != "as-block"@[0]); }
    assert("mntner"@ !== "telephony"@) by { assert("mntner"@.len() != "telephony"@.len() || "mntner"@[0] != "telephony"@[0]); }
    assert("schema"@ !== "organisation"@) by { assert("schema"@.len() != "organisation"@.len() || "schema"@[0] != "organisation"@[0]); }
    assert("schema"@ !== "tinc-keyset"@) by { assert("schema"@.len() != "tinc-keyset"@.len() || "schema"@[0] != "tinc-keyset"@[0]); }
    assert("schema"@ !== "tinc-key"@) by { assert("schema"@.len() != "tinc-key"@.len() || "schema"@[0] != "tinc-key"@[0]); }
    assert("schema"@ !== "key-cert"@) by { assert("schema"@.len() != "key-cert"@.len() || "schema"@[0] != "key-cert"@[0]); }
    assert("schema"@ !== "as-set"@) by { assert("schema"@.len() != "as-set"@.len() || "schema"@[0] != "as-set"@[0]); }
    assert("schema"@ !== "route-set"@) by { assert("schema"@.len() != "route-set"@.len() || "schema"@[0] != "route-set"@[0]); }
    assert("schema"@ !== "as-block"@) by { assert("schema"@.len() != "as-block"@.len() || "schema"@[0] != "as-block"@[0]); }
    assert("schema"@ !== "telephony"@) by { assert("schema"@.len() != "telephony"@.len() || "schema"@[0] != "telephony"@[0]); }
    assert("organisation"@ !== "tinc-keyset"@) by { assert("organisation"@.len() != "tinc-keyset"@.len() || "organisation"@[0] != "tinc-keyset"@[0]); }
    assert("organisation"@ !== "tinc-key"@) by { assert("organisation"@.len() != "tinc-key"@.len() || "organisation"@[0] != "tinc-key"@[0]); }
    assert("organisation"@ !== "key-cert"@) by { assert("organisation"@.len() != "key-cert"@.len() || "organisation"@[0] != "key-cert"@[0]); }
    assert("organisation"@ !== "as-set"@) by { assert("organisation"@.len() != "as-set"@.len() || "organisation"@[0] != "as-set"@[0]); }
    assert("organisation"@ !== "route-set"@) by { assert("organisation"@.len() != "route-set"@.len() || "organisation"@[0] != "route-set"@[0]); }
    assert("organisation"@ !== "as-block"@) by { assert("organisation"@.len() != "as-block"@.len() || "organisation"@[0] != "as-block"@[0]); }
    assert("organisation"@ !== "telephony"@) by { assert("organisation"@.len() != "telephony"@.len() || "organisation"@[0] != "telephony"@[0]); }
    assert("tinc-keyset"@ !== "tinc-key"@) by { assert("tinc-keyset"@.len() != "tinc-key"@.len() || "tinc-keyset"@[0] != "tinc-key"@[0]); }
    assert("tinc-keyset"@ !== "key-cert"@) by { assert("tinc-keyset"@.len() != "key-cert"@.len() || "tinc-keyset"@[0] != "key-cert"@[0]); }
    assert("tinc-keyset"@ !== "as-set"@) by { assert("tinc-keyset"@.len() != "as-set"@.len() || "tinc-keyset"@[0] != "as-set"@[0]); }
    assert("tinc-keyset"@ !== "route-set"@) by { assert("tinc-keyset"@.len() != "route-set"@.len() || "tinc-keyset"@[0] != "route-set"@[0]); }
    assert("tinc-keyset"@ !== "as-block"@) by { assert("tinc-keyset"@.len() != "as-block"@.len() || "tinc-keyset"@[0] != "as-block"@[0]); }
    assert("tinc-keyset"@ !== "telephony"@) by { assert("tinc-keyset"@.len() != "telephony"@.len() || "tinc-keyset"@[0] != "telephony"@[0]); }
    assert("tinc-key"@ !== "key-cert"@) by { assert("tinc-key"@.len() != "key-cert"@.len() || "tinc-key"@[0] != "key-cert"@[0]); }
    assert("tinc-key"@ !== "as-set"@) by { assert("tinc-key"@.len() != "as-set"@.len() || "tinc-key"@[0] != "as-set"@[0]); }
    assert("tinc-key"@ !== "route-set"@) by { assert("tinc-key"@.len() != "route-set"@.len() || "tinc-key"@[0] != "route-set"@[0]); }
    assert("tinc-key"@ !== "as-block"@) by { assert("tinc-key"@.len() != "as-block"@.len() || "tinc-key"@[0] != "as-block"@[0]); }
    assert("tinc-key"@ !== "telephony"@) by { assert("tinc-key"@.len() != "telephony"@.len() || "tinc-key"@[0] != "telephony"@[0]); }
    assert("key-cert"@ !== "as-set"@) by { assert("key-cert"@.len() != "as-set"@.len() || "key-cert"@[0] != "as-set"@[0]); }
    assert("key-cert"@ !== "route-set"@) by { assert("key-cert"@.len() != "route-set"@.len() || "key-cert"@[0] != "route-set"@[0]); }
    assert("key-cert"@ !== "as-block"@) by { assert("key-cert"@.len() != "as-block"@.len() || "key-cert"@[0] != "as-block"@[0]); }
    assert("key-cert"@ !== "telephony"@) by { assert("key-cert"@.len() != "telephony"@.len() || "key-cert"@[0] != "telephony"@[0]); }
    assert("as-set"@ !== "route-set"@) by { assert("as-set"@.len() != "route-set"@.len() || "as-set"@[0] != "route-set"@[0]); }
    assert("as-set"@ !== "as-block"@) by { assert("as-set"@.len() != "as-block"@.len() || "as-set"@[0] != "as-block"@[0]); }
    assert("as-set"@ !== "telephony"@) by { assert("as-set"@.len() != "telephony"@.len() || "as-set"@[0] != "telephony"@[0]); }
    assert("route-set"@ !== "as-block"@) by { assert("route-set"@.len() != "as-block"@.len() || "route-set"@[0] != "as-block"@[0]); }
    assert("route-set"@ !== "telephony"@) by { assert("route-set"@.len() != "telephony"@.len() || "route-set"@[0] != "telephony"@[0]); }
    assert("as-block"@ !== "telephony"@) by { assert("as-block"@.len() != "telephony"@.len() || "as-block"@[0] != "telephony"@[0]); }
    lemma_candidates_contain(b0, b1, b2, b3, b4, b5, b6, b7, b8, b9, b10, b11, b12, "aut-num"@);
    lemma_candidates_contain(b0, b1, b2, b3, b4, b5, b6, b7, b8, b9, b10, b11, b12, "dns"@);
    lemma_candidates_contain(b0, b1, b2, b3, b4, b5, b6, b7, b8, b9, b10, b11, b12, "person"@);
    lemma_candidates_contain(b0, b1, b2, b3, b4, b5, b6, b7, b8, b9, b10, b11, b12, "mntner"@);
    lemma_candidates_contain(b0, b1, b2, b3, b4, b5, b6, b7, b8, b9, b10, b11, b12, "schema"@);
    lemma_candidates_contain(b0, b1, b2, b3, b4, b5, b6, b7, b8, b9, b10, b11, b12, "organisation"@);
    lemma_candidates_contain(b0, b1, b2, b3, b4, b5, b6, b7, b8, b9, b10, b11, b12, "tinc-keyset"@);
    lemma_candidates_contain(b0, b1, b2, b3, b4, b5, b6, b7, b8, b9, b10, b11, b12, "tinc-key"@);
    lemma_candidates_contain(b0, b1, b2, b3, b4, b5, b6, b7, b8, b9, b10, b11, b12, "key-cert"@);
    lemma_candidates_contain(b0, b1, b2, b3, b4, b5, b6, b7, b8, b9, b10, b11, b12, "as-set"@);
    lemma_candidates_contain(b0, b1, b2, b3, b4, b5, b6, b7, b8, b9, b10, b11, b12, "route-set"@);
    lemma_candidates_contain(b0, b1, b2, b3, b4, b5, b6, b7, b8, b9, b10, b11, b12, "as-block"@);
    lemma_candidates_contain(b0, b1, b2, b3, b4, b5, b6, b7, b8, b9, b10, b11, b12, "telephony"@);
}

/// An AS block name is two runs of digits joined by a `_`.
proof fn lemma_as_block_digits(u: Seq<char>)
    ensures
        is_as_block_spec(u) == (exists|i: int|
            0 < i < u.len() - 1 && #[trigger] u[i] == '_' && all_digits(u.take(i)) && all_digits(u.skip(i + 1))),
{
    lemma_find_from(u, '_', 0);
    if exists|i: int| 0 < i < u.len() - 1 && #[trigger] u[i] == '_' && all_digits(u.take(i)) && all_digits(
        u.skip(i + 1),
    ) {
        let i = choose|i: int|
            0 < i < u.len() - 1 && #[trigger] u[i] == '_' && all_digits(u.take(i)) && all_digits(u.skip(i + 1));
        let f = find_from(u, '_', 0);
        if f < i {
            assert(is_digit(u.take(i)[f]));
        }
        assert(f == i);
        assert(is_as_block_spec(u));
    }
    if is_as_block_spec(u) {
        let f = find_from(u, '_', 0);
        assert(0 < f < u.len() - 1 && u[f] == '_' && all_digits(u.take(f)) && all_digits(u.skip(f + 1)));
    }
}

/// What the candidate types of a name are, type by type: `aut-num` for
/// `AS` and digits, `dns` for a name ending in `.dn42`, `person` for one
/// ending in `-DN42` or `-NEONETWORK`, `mntner` for `-MNT`, `schema` for
/// `-SCHEMA`, `organisation` for a name starting with `ORG-`, `tinc-keyset`
/// for `SET-...-TINC`, `tinc-key` for another name ending in `-TINC`,
/// `key-cert` for `PGPKEY-`, `as-set` for `AS`, `route-set` for `RS-`,
/// `as-block` for two runs of digits joined by `_`, and `telephony` for `+`
/// and digits; letters compared in any case.
#[verifier::spinoff_prover]
pub proof fn lemma_candidate_types_rules(object: Seq<char>)
    ensures
        ({
            let c = candidate_types_spec(object);
            let u = ascii_upper(object);
            let l = ascii_lower(object);
            &&& c.contains("aut-num"@) == (u.len() > 2 && starts_with(u, "AS"@) && all_digits(u.skip(2)))
            &&& c.contains("dns"@) == ends_with(l, ".dn42"@)
            &&& c.contains("person"@) == (ends_with(u, "-DN42"@) || ends_with(u, "-NEONETWORK"@))
            &&& c.contains("mntner"@) == ends_with(u, "-MNT"@)
            &&& c.contains("schema"@) == ends_with(u, "-SCHEMA"@)
            &&& c.contains("organisation"@) == starts_with(u, "ORG-"@)
            &&& c.contains("tinc-keyset"@) == (starts_with(u, "SET-"@) && ends_with(u, "-TINC"@))
            &&& c.contains("tinc-key"@) == (!starts_with(u, "SET-"@) && ends_with(u, "-TINC"@))
            &&& c.contains("key-cert"@) == starts_with(u, "PGPKEY-"@)
            &&& c.contains("as-set"@) == starts_with(u, "AS"@)
            &&& c.contains("route-set"@) == starts_with(u, "RS-"@)
            &&& c.contains("as-block"@) == (exists|i: int|
                0 < i < u.len() - 1 && #[trigger] u[i] == '_' && all_digits(u.take(i)) && all_digits(u.skip(i + 1)))
            &&& c.contains("telephony"@) == (object.len() > 1 && object[0] == '+' && all_digits(object.skip(1)))
        }),
{
    let u = ascii_upper(object);
    let l = ascii_lower(object);
    assert(candidate_types_spec(object) == when(is_autnum_name(u), "aut-num"@) + when(ends_with(l, ".dn42"@), "dns"@) + when((ends_with(u, "-DN42"@) || ends_with(u, "-NEONETWORK"@)), "person"@) + when(ends_with(u, "-MNT"@), "mntner"@) + when(ends_with(u, "-SCHEMA"@), "schema"@) + when(starts_with(u, "ORG-"@), "organisation"@) + when((starts_with(u, "SET-"@) && ends_with(u, "-TINC"@)), "tinc-keyset"@) + when((!(starts_with(u, "SET-"@) && ends_with(u, "-TINC"@)) && ends_with(u, "-TINC"@)), "tinc-key"@) + when(starts_with(u, "PGPKEY-"@), "key-cert"@) + when(starts_with(u, "AS"@), "as-set"@) + when(starts_with(u, "RS-"@), "route-set"@) + when(is_as_block_spec(u), "as-block"@) + when(is_telephony_number(object), "telephony"@));
    lemma_candidates_pick(is_autnum_name(u), ends_with(l, ".dn42"@), (ends_with(u, "-DN42"@) || ends_with(u, "-NEONETWORK"@)), ends_with(u, "-MNT"@), ends_with(u, "-SCHEMA"@), starts_with(u, "ORG-"@), (starts_with(u, "SET-"@) && ends_with(u, "-TINC"@)), (!(starts_with(u, "SET-"@) && ends_with(u, "-TINC"@)) && ends_with(u, "-TINC"@)), starts_with(u, "PGPKEY-"@), starts_with(u, "AS"@), starts_with(u, "RS-"@), is_as_block_spec(u), is_telephony_number(object));
    lemma_as_block_digits(u);
}

/// Appends `t` to `r` when `b` holds.
fn push_when(r: &mut Vec<&'static str>, b: bool, t: &'static str)
    ensures
        strs_view(final(r)@) == strs_view(old(r)@) + when(b, t@),
{
    if b {
        r.push(t);
        assert(strs_view(r@) =~= strs_view(old(r)@) + when(b, t@));
    } else {
        assert(strs_view(r@) =~= strs_view(old(r)@) + when(b, t@));
    }
}

/// Whether `object` names an AS block such as `4242420000_4242423999`.
pub fn is_as_block(object: &[char]) -> (b: bool)
    ensures
        b == is_as_block_spec(object@),
{
    let i = find_char(object, '_', 0);
    proof {
        lemma_find_from(object@, '_', 0);
    }
    if i == object.len() || i == 0 || i + 1 >= object.len() {
        return false;
    }
    let left = all_digits_in(object, 0, i);
    let right = all_digits_in(object, i + 1, object.len());
    proof {
        assert(object@.subrange(0, i as int) =~= object@.take(i as int));
        assert(object@.subrange(i + 1, object@.len() as int) =~= object@.skip(i + 1));
    }
    left && right
}

/// The object types that `object` may name, most likely first.
pub fn candidate_types(object: &str) -> (r: Vec<&'static str>)
    ensures
        strs_view(r@) == candidate_types_spec(object@),
{
    let v = chars_of(object);
    let u = upper_vec(&v);
    let l = lower_vec(&v);
    let mut r: Vec<&'static str> = Vec::new();
    assert(strs_view(r@) =~= Seq::<Seq<char>>::empty());

    let as_prefix = starts_with_str(&u, "AS");
    let autnum = as_prefix && u.len() > 2 && all_digits_in(&u, 2, u.len());
    proof {
        if u@.len() >= 2 {
            assert(u@.subrange(2, u@.len() as int) =~= u@.skip(2));
        }
    }
    push_when(&mut r, autnum, "aut-num");
    let dns = ends_with_str(&l, ".dn42");
    push_when(&mut r, dns, "dns");
    let person = ends_with_str(&u, "-DN42") || ends_with_str(&u, "-NEONETWORK");
    push_when(&mut r, person, "person");
    let mntner = ends_with_str(&u, "-MNT");
    push_when(&mut r, mntner, "mntner");
    let schema = ends_with_str(&u, "-SCHEMA");
    push_when(&mut r, schema, "schema");
    let org = starts_with_str(&u, "ORG-");
    push_when(&mut r, org, "organisation");
    let tinc = ends_with_str(&u, "-TINC");
    let keyset = starts_with_str(&u, "SET-") && tinc;
    push_when(&mut r, keyset, "tinc-keyset");
    push_when(&mut r, !keyset && tinc, "tinc-key");
    let key_cert = starts_with_str(&u, "PGPKEY-");
    push_when(&mut r, key_cert, "key-cert");
    push_when(&mut r, as_prefix, "as-set");
    let route_set = starts_with_str(&u, "RS-");
    push_when(&mut r, route_set, "route-set");
    let as_block = is_as_block(&u);
    push_when(&mut r, as_block, "as-block");
    let telephony = v.len() > 1 && v[0] == '+' && all_digits_in(&v, 1, v.len());
    proof {
        if v@.len() >= 1 {
            assert(v@.subrange(1, v@.len() as int) =~= v@.skip(1));
        }
    }
    push_when(&mut r, telephony, "telephony");
    r
}

/// An object's candidate types do not depend on its letter case.
pub proof fn lemma_candidate_types_lower(o: Seq<char>)
    ensures
        candidate_types_spec(ascii_lower(o)) == candidate_types_spec(o),
        is_telephony_number(ascii_lower(o)) == is_telephony_number(o),
{
    lemma_case_absorb(o);
    let l = ascii_lower(o);
    if o.len() > 0 {
        assert(l[0] == lower_char(o[0]));
        lemma_lower_slices(o, 1, o.len() as int);
        lemma_all_digits_lower(o.skip(1));
    }
}

} // verus!
