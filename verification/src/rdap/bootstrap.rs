//! IANA-format RDAP bootstrap registry files (RFC 9224) for the registry's
//! resources.
//!
//! The caller lists the object directories that `Kind::object_types` names
//! and reads the clock; `build` makes the file from the names and the time.
use vstd::prelude::*;
use vstd::arithmetic::div_mod::{lemma_fundamental_div_mod, lemma_mod_mod};
use crate::cidr::replace_char;
use crate::ip::{IpAddress, ip_text};
use crate::net::{ipnet_parsed, parse_ipnet};
use crate::order::{
    lemma_digits_value_order, lemma_lt_append, lemma_lt_common_prefix, seq_le, sort_unique,
    strictly_sorted,
};
use crate::registry::strings_view;
use crate::rdap::url::{opt_str_view, path_prefix, path_prefix_spec};
use crate::text::{
    is_digit, lemma_dec_text, value_of,
    all_digits, all_digits_in, chars_of, dec_text, push_chars, push_decimal, push_str,
    starts_with, starts_with_str, str_eq, string_of, trim_end_char, trim_end_char_vec,
};

verus! {

/// Which resources a bootstrap file lists.
#[derive(Debug, Clone, Copy, PartialEq, Eq, Structural)]
pub enum Kind {
    Asn,
    Dns,
    Ipv4,
    Ipv6,
}

/// The kind of the bootstrap file named `name`, if it is one.
pub open spec fn bootstrap_kind(name: Seq<char>) -> Option<Kind> {
    if name == "asn.json"@ {
        Some(Kind::Asn)
    } else if name == "dns.json"@ {
        Some(Kind::Dns)
    } else if name == "ipv4.json"@ {
        Some(Kind::Ipv4)
    } else if name == "ipv6.json"@ {
        Some(Kind::Ipv6)
    } else {
        None
    }
}

impl Kind {
    /// The kind of the file `name` under the bootstrap path.
    pub fn from_file(name: &str) -> (r: Option<Self>)
        ensures
            r == bootstrap_kind(name@),
    {
        if str_eq(name, "asn.json") {
            Some(Kind::Asn)
        } else if str_eq(name, "dns.json") {
            Some(Kind::Dns)
        } else if str_eq(name, "ipv4.json") {
            Some(Kind::Ipv4)
        } else if str_eq(name, "ipv6.json") {
            Some(Kind::Ipv6)
        } else {
            None
        }
    }

    /// The object types whose names give the resources of this kind.
    pub fn object_types(&self) -> (r: Vec<&'static str>)
        ensures
            r@.map_values(|t: &str| t@) == object_types_spec(*self),
    {
        let r = match self {
            Kind::Asn => vec!["aut-num"],
            Kind::Dns => vec!["dns"],
            Kind::Ipv4 => vec!["inetnum", "route"],
            Kind::Ipv6 => vec!["inet6num", "route6"],
        };
        assert(r@.map_values(|t: &str| t@) =~= object_types_spec(*self));
        r
    }
}

/// The object types whose names give the resources of a kind.
pub open spec fn object_types_spec(kind: Kind) -> Seq<Seq<char>> {
    match kind {
        Kind::Asn => seq!["aut-num"@],
        Kind::Dns => seq!["dns"@],
        Kind::Ipv4 => seq!["inetnum"@, "route"@],
        Kind::Ipv6 => seq!["inet6num"@, "route6"@],
    }
}

/// The text after the last `.` of `s` (all of `s` without one).
pub open spec fn last_label(s: Seq<char>) -> Seq<char> {
    s.skip(last_dot_end(s, s.len() as int))
}

/// The position after the last `.` in `s[..j]`, or 0.
pub open spec fn last_dot_end(s: Seq<char>, j: int) -> int
    decreases j,
{
    if j <= 0 {
        0
    } else if s[j - 1] == '.' {
        j
    } else {
        last_dot_end(s, j - 1)
    }
}

/// The resource that an object name gives for a kind, if any: the number of
/// an `AS<digits>` (or `as<digits>`) name; the top-level label of a domain;
/// the prefix (`_` read as `/`) of an address range of the kind's family.
pub open spec fn entry_key(kind: Kind, name: Seq<char>) -> Option<Seq<char>> {
    match kind {
        Kind::Asn => {
            if (starts_with(name, "AS"@) || starts_with(name, "as"@)) && name.len() > 2 && all_digits(name.skip(2)) {
                Some(name.skip(2))
            } else {
                None
            }
        },
        Kind::Dns => if last_label(name).len() > 0 {
            Some(last_label(name))
        } else {
            None
        },
        Kind::Ipv4 | Kind::Ipv6 => {
            let cidr = replace_char(name, '_', '/');
            match ipnet_parsed(cidr) {
                Some((IpAddress::V4(_), _)) => if kind == Kind::Ipv4 {
                    Some(cidr)
                } else {
                    None
                },
                Some((IpAddress::V6(_), _)) => if kind == Kind::Ipv6 {
                    Some(cidr)
                } else {
                    None
                },
                None => None,
            }
        },
    }
}

/// The resources that `names` give, in order, with repetitions.
pub open spec fn entry_keys(kind: Kind, names: Seq<Seq<char>>) -> Seq<Seq<char>>
    decreases names.len(),
{
    if names.len() == 0 {
        seq![]
    } else {
        let rest = entry_keys(kind, names.drop_last());
        match entry_key(kind, names.last()) {
            Some(k) => rest.push(k),
            None => rest,
        }
    }
}

fn entry_key_exec(kind: Kind, name: &str) -> (r: Option<String>)
    ensures
        match (r, entry_key(kind, name@)) {
            (Some(a), Some(b)) => a@ == b,
            (None, None) => true,
            _ => false,
        },
{
    let v = chars_of(name);
    match kind {
        Kind::Asn => {
            if (starts_with_str(&v, "AS") || starts_with_str(&v, "as")) && v.len() > 2 {
                proof {
                    reveal_strlit("AS");
                    reveal_strlit("as");
                }
                if all_digits_in(&v, 2, v.len()) {
                    let rest = crate::text::slice_vec(&v, 2, v.len());
                    proof {
                        assert(rest@ =~= v@.skip(2));
                    }
                    return Some(string_of(&rest));
                }
                proof {
                    assert(v@.subrange(2, v@.len() as int) =~= v@.skip(2));
                }
            }
            None
        },
        Kind::Dns => {
            let mut j = v.len();
            while j > 0 && v[j - 1] != '.'
                invariant
                    j <= v@.len(),
                    last_dot_end(v@, j as int) == last_dot_end(v@, v@.len() as int),
                decreases j,
            {
                j = j - 1;
            }
            let label = crate::text::slice_vec(&v, j, v.len());
            proof {
                assert(label@ =~= last_label(v@));
            }
            if label.len() > 0 {
                Some(string_of(&label))
            } else {
                None
            }
        },
        _ => {
            let mut w: Vec<char> = Vec::new();
            let mut k: usize = 0;
            while k < v.len()
                invariant
                    k <= v@.len(),
                    w@ == replace_char(v@.take(k as int), '_', '/'),
                decreases v@.len() - k,
            {
                w.push(if v[k] == '_' { '/' } else { v[k] });
                k = k + 1;
                proof {
                    assert(replace_char(v@.take(k as int), '_', '/') =~= replace_char(
                        v@.take(k - 1),
                        '_',
                        '/',
                    ).push(if v@[k - 1] == '_' { '/' } else { v@[k - 1] }));
                }
            }
            proof {
                assert(v@.take(k as int) =~= v@);
            }
            let cidr = string_of(&w);
            match parse_ipnet(cidr.as_str()) {
                Some((IpAddress::V4(_), _)) => if kind == Kind::Ipv4 {
                    Some(cidr)
                } else {
                    None
                },
                Some((IpAddress::V6(_), _)) => if kind == Kind::Ipv6 {
                    Some(cidr)
                } else {
                    None
                },
                None => None,
            }
        },
    }
}

/// The resources of a kind that the object names give, sorted, without
/// duplicates.
pub fn entries(kind: Kind, names: &[String]) -> (r: Vec<String>)
    ensures
        strictly_sorted(strings_view(r@)),
        forall|x: Seq<char>| #[trigger] strings_view(r@).contains(x) <==> entry_keys(kind, strings_view(names@)).contains(x),
{
    let mut keys: Vec<String> = Vec::new();
    let mut k: usize = 0;
    proof {
        assert(strings_view(keys@) =~= seq![]);
        assert(strings_view(names@).take(0) =~= seq![]);
    }
    while k < names.len()
        invariant
            k <= names@.len(),
            strings_view(keys@) == entry_keys(kind, strings_view(names@).take(k as int)),
        decreases names@.len() - k,
    {
        let ghost before = strings_view(keys@);
        let ghost nv = strings_view(names@).take(k + 1);
        proof {
            assert(nv.drop_last() =~= strings_view(names@).take(k as int));
            assert(nv.last() == names@[k as int]@);
        }
        match entry_key_exec(kind, names[k].as_str()) {
            Some(key) => {
                keys.push(key);
                proof {
                    assert(strings_view(keys@) =~= before.push(keys@.last()@));
                }
            },
            None => {},
        }
        k = k + 1;
    }
    proof {
        assert(strings_view(names@).take(k as int) =~= strings_view(names@));
    }
    sort_unique(keys)
}

/// The URL of the RDAP service that a bootstrap file points to: the base URL
/// (none counts as empty) without trailing slashes, then the path prefix,
/// then `/`.
pub open spec fn service_url_spec(base: Option<Seq<char>>, path: Seq<char>) -> Seq<char> {
    let b = match base {
        Some(b) => b,
        None => seq![],
    };
    trim_end_char(b, '/') + path_prefix_spec(path) + seq!['/']
}

/// The URL of the RDAP service that a bootstrap file points to.
pub fn service_base_url(base_url: Option<&str>, path: &str) -> (r: String)
    ensures
        r@ == service_url_spec(opt_str_view(base_url), path@),
{
    let bv = match base_url {
        Some(b) => chars_of(b),
        None => Vec::new(),
    };
    let mut out = trim_end_char_vec(&bv, '/');
    let p = path_prefix(path);
    push_chars(&mut out, &p);
    out.push('/');
    proof {
        assert(out@ =~= service_url_spec(opt_str_view(base_url), path@));
    }
    string_of(&out)
}

// ---------------------------------------------------------------------------
// Dates

/// A leap year of the Gregorian calendar.
pub open spec fn is_leap_year(y: int) -> bool {
    y % 4 == 0 && (y % 100 != 0 || y % 400 == 0)
}

/// The number of days of year `y`.
pub open spec fn year_length(y: int) -> int {
    if is_leap_year(y) {
        366
    } else {
        365
    }
}

/// The number of days of month `m` (1 is January) of year `y`.
pub open spec fn month_length(y: int, m: int) -> int {
    if m == 2 {
        if is_leap_year(y) {
            29
        } else {
            28
        }
    } else if m == 4 || m == 6 || m == 9 || m == 11 {
        30
    } else {
        31
    }
}

/// The days from 1970-01-01 to the first day of year `y`.
pub open spec fn days_before_year(y: int) -> int
    decreases y - 1970,
{
    if y <= 1970 {
        0
    } else {
        days_before_year(y - 1) + year_length(y - 1)
    }
}

/// The days from the first day of year `y` to the first day of month `m`.
pub open spec fn days_before_month(y: int, m: int) -> int
    decreases m,
{
    if m <= 1 {
        0
    } else {
        days_before_month(y, m - 1) + month_length(y, m - 1)
    }
}

/// Whether `y-m-d` is a date of the Gregorian calendar from 1970 on.
pub open spec fn is_date(y: int, m: int, d: int) -> bool {
    1970 <= y && 1 <= m <= 12 && 1 <= d <= month_length(y, m)
}

/// The days from 1970-01-01 to the date `y-m-d`.
pub open spec fn day_number(y: int, m: int, d: int) -> int {
    days_before_year(y) + days_before_month(y, m) + d - 1
}

/// The date, as (year, month, day), of the day `days` after 1970-01-01.
pub open spec fn date_of_day(days: int) -> (int, int, int) {
    choose|t: (int, int, int)| is_date(t.0, t.1, t.2) && day_number(t.0, t.1, t.2) == days
}

/// The leap years up to year `n`, counted from year 1.
spec fn leaps_through(n: int) -> int {
    n / 4 - n / 100 + n / 400
}

#[verifier::spinoff_prover]
proof fn lemma_days_before_year_closed(y: int)
    requires
        1970 <= y,
    ensures
        days_before_year(y) == 365 * (y - 1970) + leaps_through(y - 1) - leaps_through(1969),
    decreases y - 1970,
{
    if y > 1970 {
        lemma_days_before_year_closed(y - 1);
        let n = y - 1;
        lemma_div_step_4(n);
        lemma_div_step_100(n);
        lemma_div_step_400(n);
        assert(leaps_through(n) - leaps_through(n - 1) == (if is_leap_year(n) { 1int } else { 0 }));
    }
}

#[verifier::spinoff_prover]
proof fn lemma_div_step_4(n: int)
    requires
        n >= 1,
    ensures
        n / 4 - (n - 1) / 4 == (if n % 4 == 0 { 1int } else { 0 }),
{
    lemma_fundamental_div_mod(n, 4);
    lemma_fundamental_div_mod(n - 1, 4);
}

#[verifier::spinoff_prover]
proof fn lemma_div_step_100(n: int)
    requires
        n >= 1,
    ensures
        n / 100 - (n - 1) / 100 == (if n % 100 == 0 { 1int } else { 0 }),
{
    lemma_fundamental_div_mod(n, 100);
    lemma_fundamental_div_mod(n - 1, 100);
}

#[verifier::spinoff_prover]
proof fn lemma_div_step_400(n: int)
    requires
        n >= 1,
    ensures
        n / 400 - (n - 1) / 400 == (if n % 400 == 0 { 1int } else { 0 }),
{
    lemma_fundamental_div_mod(n, 400);
    lemma_fundamental_div_mod(n - 1, 400);
}

/// Four hundred years have 146097 days.
#[verifier::spinoff_prover]
proof fn lemma_four_centuries(y: int)
    requires
        1970 <= y,
    ensures
        days_before_year(y + 400) == days_before_year(y) + 146097,
{
    lemma_days_before_year_closed(y);
    lemma_days_before_year_closed(y + 400);
    let n = y - 1;
    lemma_fundamental_div_mod(n, 4);
    lemma_fundamental_div_mod(n + 400, 4);
    lemma_fundamental_div_mod(n, 100);
    lemma_fundamental_div_mod(n + 400, 100);
    lemma_fundamental_div_mod(n, 400);
    lemma_fundamental_div_mod(n + 400, 400);
    assert((n + 400) / 4 == n / 4 + 100);
    assert((n + 400) / 100 == n / 100 + 4);
    assert((n + 400) / 400 == n / 400 + 1);
}

proof fn lemma_cycles(c: nat)
    ensures
        days_before_year(1970 + 400 * c as int) == 146097 * c,
    decreases c,
{
    if c > 0 {
        lemma_cycles((c - 1) as nat);
        lemma_four_centuries(1970 + 400 * (c - 1));
    }
}

proof fn lemma_years_grow(a: int, b: int)
    requires
        1970 <= a <= b,
    ensures
        days_before_year(a) + 365 * (b - a) <= days_before_year(b),
        a < b ==> days_before_year(a) + year_length(a) <= days_before_year(b),
    decreases b - a,
{
    if a < b {
        lemma_years_grow(a, b - 1);
    }
}

proof fn lemma_months_grow(y: int, a: int, b: int)
    requires
        1 <= a <= b,
    ensures
        days_before_month(y, a) <= days_before_month(y, b),
        a < b ==> days_before_month(y, a) + month_length(y, a) <= days_before_month(y, b),
    decreases b - a,
{
    if a < b {
        lemma_months_grow(y, a, b - 1);
    }
}

proof fn lemma_year_of_months(y: int)
    ensures
        days_before_month(y, 13) == year_length(y),
{
    reveal_with_fuel(days_before_month, 13);
}

/// A day number lies within the year of its date.
proof fn lemma_date_in_year(y: int, m: int, d: int)
    requires
        is_date(y, m, d),
    ensures
        days_before_year(y) <= day_number(y, m, d) < days_before_year(y) + year_length(y),
{
    lemma_months_grow(y, m, 13);
    lemma_months_grow(y, 1, m);
    lemma_year_of_months(y);
}

/// Different dates have different day numbers.
pub proof fn lemma_date_unique(a: (int, int, int), b: (int, int, int))
    requires
        is_date(a.0, a.1, a.2),
        is_date(b.0, b.1, b.2),
        day_number(a.0, a.1, a.2) == day_number(b.0, b.1, b.2),
    ensures
        a == b,
{
    lemma_date_in_year(a.0, a.1, a.2);
    lemma_date_in_year(b.0, b.1, b.2);
    if a.0 < b.0 {
        lemma_years_grow(a.0, b.0);
    } else if b.0 < a.0 {
        lemma_years_grow(b.0, a.0);
    }
    assert(a.0 == b.0);
    if a.1 < b.1 {
        lemma_months_grow(a.0, a.1, b.1);
    } else if b.1 < a.1 {
        lemma_months_grow(a.0, b.1, a.1);
    }
}

/// The decimal digits of `n`, padded with zeros to at least `w` digits.
pub open spec fn padded(n: nat, w: nat) -> Seq<char> {
    let t = dec_text(n);
    Seq::new((if w > t.len() { w - t.len() } else { 0 }) as nat, |i: int| '0') + t
}

/// RFC 3339 UTC time of `secs` seconds after the Unix epoch.
pub open spec fn rfc3339_spec(secs: nat) -> Seq<char> {
    let days = secs / 86400;
    let rem = secs % 86400;
    let (y, m, d) = date_of_day(days as int);
    padded(y as nat, 4) + seq!['-'] + padded(m as nat, 2) + seq!['-'] + padded(d as nat, 2)
        + seq!['T'] + padded(rem / 3600, 2) + seq![':'] + padded((rem % 3600) / 60, 2) + seq![
        ':',
    ] + padded(rem % 60, 2) + seq!['Z']
}

proof fn lemma_zeros_value(k: nat)
    ensures
        value_of(Seq::new(k, |i: int| '0'), 10) == 0,
        all_digits(Seq::new(k, |i: int| '0')),
    decreases k,
{
    if k > 0 {
        lemma_zeros_value((k - 1) as nat);
        assert(Seq::new(k, |i: int| '0').drop_last() =~= Seq::new((k - 1) as nat, |i: int| '0'));
    }
}

proof fn lemma_leading_zeros(z: Seq<char>, t: Seq<char>)
    requires
        value_of(z, 10) == 0,
    ensures
        value_of(z + t, 10) == value_of(t, 10),
    decreases t.len(),
{
    if t.len() == 0 {
        assert(z + t =~= z);
    } else {
        lemma_leading_zeros(z, t.drop_last());
        assert((z + t).drop_last() =~= z + t.drop_last());
        assert((z + t).last() == t.last());
    }
}

/// A number below `10^w`, padded to `w` digits, is `w` digits that denote it.
proof fn lemma_padded(n: nat, w: nat)
    requires
        w == 2 || w == 4,
        w == 2 ==> n < 100,
        w == 4 ==> n < 10000,
    ensures
        padded(n, w).len() == w,
        all_digits(padded(n, w)),
        value_of(padded(n, w), 10) == n,
{
    lemma_dec_text(n);
    let t = dec_text(n);
    let k = (if w > t.len() { w - t.len() } else { 0 }) as nat;
    let z = Seq::new(k, |i: int| '0');
    lemma_zeros_value(k);
    lemma_leading_zeros(z, t);
    let p = padded(n, w);
    assert(p == z + t);
    assert forall|i: int| 0 <= i < p.len() implies is_digit(#[trigger] p[i]) by {
        if i < k {
            assert(p[i] == z[i]);
        } else {
            assert(p[i] == t[i - k]);
        }
    }
}

/// A field of `w` digits, then a separator and the rest: the text sorts by
/// the field, and by the rest when the fields are equal.
proof fn lemma_field_step(x1: nat, x2: nat, w: nat, sep: char, r1: Seq<char>, r2: Seq<char>)
    requires
        w == 2 || w == 4,
        w == 2 ==> x1 < 100 && x2 < 100,
        w == 4 ==> x1 < 10000 && x2 < 10000,
        x1 <= x2,
        x1 == x2 ==> seq_le(r1, r2),
    ensures
        seq_le(padded(x1, w) + (seq![sep] + r1), padded(x2, w) + (seq![sep] + r2)),
{
    lemma_padded(x1, w);
    lemma_padded(x2, w);
    if x1 < x2 {
        lemma_digits_value_order(padded(x1, w), padded(x2, w));
        lemma_lt_append(padded(x1, w), padded(x2, w), seq![sep] + r1, seq![sep] + r2);
    } else {
        lemma_lt_common_prefix(padded(x1, w), seq![sep] + r1, seq![sep] + r2);
        lemma_lt_common_prefix(seq![sep], r1, r2);
    }
}

/// The date and time `y-m-dTH:M:SZ` with fixed-width fields.
pub open spec fn stamp(y: nat, m: nat, d: nat, h: nat, mi: nat, s: nat) -> Seq<char> {
    padded(y, 4) + (seq!['-'] + (padded(m, 2) + (seq!['-'] + (padded(d, 2) + (seq!['T'] + (padded(h, 2)
        + (seq![':'] + (padded(mi, 2) + (seq![':'] + (padded(s, 2) + seq!['Z']))))))))))
}

/// Whether `a` comes before `b` or is `b`, field by field.
pub open spec fn fields_le(a: (nat, nat, nat, nat, nat, nat), b: (nat, nat, nat, nat, nat, nat)) -> bool {
    a.0 < b.0 || (a.0 == b.0 && (a.1 < b.1 || (a.1 == b.1 && (a.2 < b.2 || (a.2 == b.2 && (a.3 < b.3
        || (a.3 == b.3 && (a.4 < b.4 || (a.4 == b.4 && a.5 <= b.5)))))))))
}

proof fn lemma_stamp_order(a: (nat, nat, nat, nat, nat, nat), b: (nat, nat, nat, nat, nat, nat))
    requires
        a.0 < 10000 && b.0 < 10000,
        a.1 < 100 && b.1 < 100 && a.2 < 100 && b.2 < 100,
        a.3 < 100 && b.3 < 100 && a.4 < 100 && b.4 < 100 && a.5 < 100 && b.5 < 100,
        fields_le(a, b),
    ensures
        seq_le(stamp(a.0, a.1, a.2, a.3, a.4, a.5), stamp(b.0, b.1, b.2, b.3, b.4, b.5)),
{
    let z1 = seq!['Z'];
    let l5 = padded(a.5, 2) + z1;
    let r5 = padded(b.5, 2) + z1;
    lemma_padded(a.5, 2);
    lemma_padded(b.5, 2);
    if a.5 < b.5 {
        lemma_digits_value_order(padded(a.5, 2), padded(b.5, 2));
        lemma_lt_append(padded(a.5, 2), padded(b.5, 2), z1, z1);
    }
    assert(a.4 == b.4 && a.5 <= b.5 ==> seq_le(l5, r5));
    let l4 = padded(a.4, 2) + (seq![':'] + l5);
    let r4 = padded(b.4, 2) + (seq![':'] + r5);
    if a.4 <= b.4 && (a.4 == b.4 ==> a.5 <= b.5) {
        lemma_field_step(a.4, b.4, 2, ':', l5, r5);
    }
    let l3 = padded(a.3, 2) + (seq![':'] + l4);
    let r3 = padded(b.3, 2) + (seq![':'] + r4);
    if a.3 <= b.3 && (a.3 == b.3 ==> seq_le(l4, r4)) {
        lemma_field_step(a.3, b.3, 2, ':', l4, r4);
    }
    let l2 = padded(a.2, 2) + (seq!['T'] + l3);
    let r2 = padded(b.2, 2) + (seq!['T'] + r3);
    if a.2 <= b.2 && (a.2 == b.2 ==> seq_le(l3, r3)) {
        lemma_field_step(a.2, b.2, 2, 'T', l3, r3);
    }
    let l1 = padded(a.1, 2) + (seq!['-'] + l2);
    let r1 = padded(b.1, 2) + (seq!['-'] + r2);
    if a.1 <= b.1 && (a.1 == b.1 ==> seq_le(l2, r2)) {
        lemma_field_step(a.1, b.1, 2, '-', l2, r2);
    }
    lemma_field_step(a.0, b.0, 4, '-', l1, r1);
}

/// A date before another has the smaller day number.
proof fn lemma_date_order(a: (int, int, int), b: (int, int, int))
    requires
        is_date(a.0, a.1, a.2),
        is_date(b.0, b.1, b.2),
        a.0 < b.0 || (a.0 == b.0 && (a.1 < b.1 || (a.1 == b.1 && a.2 < b.2))),
    ensures
        day_number(a.0, a.1, a.2) < day_number(b.0, b.1, b.2),
{
    lemma_date_in_year(a.0, a.1, a.2);
    lemma_date_in_year(b.0, b.1, b.2);
    if a.0 < b.0 {
        lemma_years_grow(a.0, b.0);
    } else if a.1 < b.1 {
        lemma_months_grow(a.0, a.1, b.1);
    }
}

/// The days before the year 10000.
proof fn lemma_days_before_10000()
    ensures
        days_before_year(10000) == 2932897,
{
    lemma_days_before_year_closed(10000);
}

/// The fields of the time `secs` seconds after the epoch.
pub open spec fn time_fields(secs: nat) -> (nat, nat, nat, nat, nat, nat) {
    let days = secs / 86400;
    let rem = secs % 86400;
    let (y, m, d) = date_of_day(days as int);
    (y as nat, m as nat, d as nat, rem / 3600, (rem % 3600) / 60, rem % 60)
}

#[verifier::spinoff_prover]
proof fn lemma_dates_in_order(d1: nat, d2: nat)
    requires
        d1 <= d2 < 2932897,
    ensures
        ({
            let a = date_of_day(d1 as int);
            let b = date_of_day(d2 as int);
            &&& 1970 <= a.0 < 10000 && 1 <= a.1 <= 12 && 1 <= a.2 <= 31
            &&& 1970 <= b.0 < 10000 && 1 <= b.1 <= 12 && 1 <= b.2 <= 31
            &&& a.0 < b.0 || (a.0 == b.0 && (a.1 < b.1 || (a.1 == b.1 && a.2 <= b.2)))
        }),
{
    lemma_date_of_day(d1);
    lemma_date_of_day(d2);
    let a = date_of_day(d1 as int);
    let b = date_of_day(d2 as int);
    lemma_days_before_10000();
    lemma_date_in_year(a.0, a.1, a.2);
    lemma_date_in_year(b.0, b.1, b.2);
    if a.0 >= 10000 {
        lemma_years_grow(10000, a.0);
    }
    if b.0 >= 10000 {
        lemma_years_grow(10000, b.0);
    }
    if b.0 < a.0 || (b.0 == a.0 && (b.1 < a.1 || (b.1 == a.1 && b.2 < a.2))) {
        lemma_date_order(b, a);
    }
}

#[verifier::spinoff_prover]
proof fn lemma_times_in_order(q1: nat, q2: nat)
    requires
        q1 <= q2 < 86400,
    ensures
        q1 / 3600 < 24 && q2 / 3600 < 24,
        (q1 % 3600) / 60 < 60 && (q2 % 3600) / 60 < 60,
        q1 % 60 < 60 && q2 % 60 < 60,
        q1 / 3600 < q2 / 3600 || (q1 / 3600 == q2 / 3600 && ((q1 % 3600) / 60 < (q2 % 3600) / 60 || (
        (q1 % 3600) / 60 == (q2 % 3600) / 60 && q1 % 60 <= q2 % 60))),
{
    lemma_fundamental_div_mod(q1 as int, 3600);
    lemma_fundamental_div_mod(q2 as int, 3600);
    lemma_fundamental_div_mod((q1 % 3600) as int, 60);
    lemma_fundamental_div_mod((q2 % 3600) as int, 60);
    lemma_fundamental_div_mod(q1 as int, 60);
    lemma_fundamental_div_mod(q2 as int, 60);
    assert((q1 % 3600) % 60 == q1 % 60) by {
        lemma_mod_mod(q1 as int, 60, 60);
    }
    assert((q2 % 3600) % 60 == q2 % 60) by {
        lemma_mod_mod(q2 as int, 60, 60);
    }
}

/// The fields of two times in order are in order, and each is in range.
#[verifier::spinoff_prover]
proof fn lemma_fields_in_order(s1: nat, s2: nat)
    requires
        s1 <= s2 < 253402300800,
    ensures
        ({
            let t1 = time_fields(s1);
            let t2 = time_fields(s2);
            &&& t1.0 < 10000 && t2.0 < 10000
            &&& t1.1 < 100 && t2.1 < 100 && t1.2 < 100 && t2.2 < 100
            &&& t1.3 < 100 && t2.3 < 100 && t1.4 < 100 && t2.4 < 100 && t1.5 < 100 && t2.5 < 100
            &&& fields_le(t1, t2)
        }),
{
    let d1 = s1 / 86400;
    let d2 = s2 / 86400;
    let q1 = s1 % 86400;
    let q2 = s2 % 86400;
    lemma_fundamental_div_mod(s1 as int, 86400);
    lemma_fundamental_div_mod(s2 as int, 86400);
    assert(d1 <= d2);
    assert(d2 < 2932897);
    assert(d1 == d2 ==> q1 <= q2);
    lemma_dates_in_order(d1, d2);
    if d1 == d2 {
        lemma_times_in_order(q1, q2);
    } else {
        lemma_times_in_order(q1, q1);
        lemma_times_in_order(q2, q2);
        lemma_date_of_day(d1);
        lemma_date_of_day(d2);
        let a = date_of_day(d1 as int);
        let b = date_of_day(d2 as int);
        if a == b {
            assert(d1 == d2);
        }
    }
}

/// The RFC 3339 text of a time is the stamp of its fields.
proof fn lemma_rfc3339_stamp(s: nat)
    ensures
        ({
            let t = time_fields(s);
            rfc3339_spec(s) == stamp(t.0, t.1, t.2, t.3, t.4, t.5)
        }),
{
    let t = time_fields(s);
    assert(rfc3339_spec(s) =~= stamp(t.0, t.1, t.2, t.3, t.4, t.5));
}

/// RFC 3339 times up to the end of the year 9999 sort as text in the order
/// of time: a later time never gets a text that sorts first.
pub proof fn lemma_rfc3339_order(s1: nat, s2: nat)
    requires
        s1 <= s2 < 253402300800,
    ensures
        seq_le(rfc3339_spec(s1), rfc3339_spec(s2)),
{
    lemma_fields_in_order(s1, s2);
    lemma_rfc3339_stamp(s1);
    lemma_rfc3339_stamp(s2);
    let t1 = time_fields(s1);
    let t2 = time_fields(s2);
    lemma_stamp_order(t1, t2);
}

fn push_padded(out: &mut Vec<char>, n: u64, w: usize)
    ensures
        final(out)@ == old(out)@ + padded(n as nat, w as nat),
{
    let mut digits: Vec<char> = Vec::new();
    push_decimal(&mut digits, n);
    let ghost t = dec_text(n as nat);
    assert(digits@ == t);
    let mut z: usize = 0;
    let pad: usize = if w > digits.len() { w - digits.len() } else { 0 };
    while z < pad
        invariant
            z <= pad,
            out@ == old(out)@ + Seq::new(z as nat, |i: int| '0'),
        decreases pad - z,
    {
        out.push('0');
        z = z + 1;
        proof {
            assert(Seq::new(z as nat, |i: int| '0') =~= Seq::new((z - 1) as nat, |i: int| '0').push('0'));
        }
    }
    push_chars(out, &digits);
    assert(final(out)@ =~= old(out)@ + padded(n as nat, w as nat));
}

/// The day after a date.
pub open spec fn next_day(t: (int, int, int)) -> (int, int, int) {
    if t.2 < month_length(t.0, t.1) {
        (t.0, t.1, t.2 + 1)
    } else if t.1 < 12 {
        (t.0, t.1 + 1, 1)
    } else {
        (t.0 + 1, 1, 1)
    }
}

proof fn lemma_next_day(t: (int, int, int))
    requires
        is_date(t.0, t.1, t.2),
    ensures
        is_date(next_day(t).0, next_day(t).1, next_day(t).2),
        day_number(next_day(t).0, next_day(t).1, next_day(t).2) == day_number(t.0, t.1, t.2) + 1,
{
    lemma_year_of_months(t.0);
    assert(days_before_month(t.0, 13) == days_before_month(t.0, 12) + month_length(t.0, 12));
}

/// The date of a day number as the calendar counts it from 1970-01-01.
spec fn counted_date(days: nat) -> (int, int, int)
    decreases days,
{
    if days == 0 {
        (1970, 1, 1)
    } else {
        next_day(counted_date((days - 1) as nat))
    }
}

proof fn lemma_counted_date(days: nat)
    ensures
        is_date(counted_date(days).0, counted_date(days).1, counted_date(days).2),
        day_number(counted_date(days).0, counted_date(days).1, counted_date(days).2) == days,
    decreases days,
{
    if days > 0 {
        lemma_counted_date((days - 1) as nat);
        lemma_next_day(counted_date((days - 1) as nat));
    }
}

/// Every day from 1970-01-01 on has exactly one date: `date_of_day` gives
/// a date of the Gregorian calendar whose day number is that day, and no
/// other date has it.
pub proof fn lemma_date_of_day(days: nat)
    ensures
        is_date(date_of_day(days as int).0, date_of_day(days as int).1, date_of_day(days as int).2),
        day_number(date_of_day(days as int).0, date_of_day(days as int).1, date_of_day(days as int).2)
            == days,
        forall|t: (int, int, int)|
            is_date(t.0, t.1, t.2) && day_number(t.0, t.1, t.2) == days ==> t == date_of_day(days as int),
{
    lemma_counted_date(days);
    let w = counted_date(days);
    assert(is_date(w.0, w.1, w.2) && day_number(w.0, w.1, w.2) == days);
    let c = date_of_day(days as int);
    assert forall|t: (int, int, int)|
        is_date(t.0, t.1, t.2) && day_number(t.0, t.1, t.2) == days implies t == date_of_day(
        days as int,
    ) by {
        lemma_date_unique(t, c);
    }
}

fn is_leap_exec(y: u64) -> (r: bool)
    ensures
        r == is_leap_year(y as int),
{
    y % 4 == 0 && (y % 100 != 0 || y % 400 == 0)
}

fn year_length_exec(y: u64) -> (r: u64)
    ensures
        r == year_length(y as int),
{
    if is_leap_exec(y) {
        366
    } else {
        365
    }
}

fn month_length_exec(y: u64, m: u64) -> (r: u64)
    ensures
        r == month_length(y as int, m as int),
{
    if m == 2 {
        if is_leap_exec(y) {
            29
        } else {
            28
        }
    } else if m == 4 || m == 6 || m == 9 || m == 11 {
        30
    } else {
        31
    }
}

/// The date of the day `days` after 1970-01-01: whole four-century cycles
/// first, then year by year and month by month.
fn civil_exec(days: u64) -> (r: (u64, u64, u64))
    requires
        days <= 0x7fff_ffff_ffff_ffffint / 86400,
    ensures
        is_date(r.0 as int, r.1 as int, r.2 as int),
        day_number(r.0 as int, r.1 as int, r.2 as int) == days,
{
    let cycles = days / 146097;
    let mut left = days % 146097;
    let mut y: u64 = 1970 + 400 * cycles;
    proof {
        lemma_cycles(cycles as nat);
    }
    while left >= year_length_exec(y)
        invariant
            1970 <= y,
            days_before_year(y as int) + left == days,
            days <= 0x7fff_ffff_ffff_ffffint / 86400,
        decreases left,
    {
        let len: u64 = year_length_exec(y);
        proof {
            lemma_years_grow(1970, y as int);
            assert(days_before_year(y as int + 1) == days_before_year(y as int) + year_length(y as int));
        }
        left = left - len;
        y = y + 1;
    }
    let mut m: u64 = 1;
    proof {
        lemma_year_of_months(y as int);
    }
    while left >= month_length_exec(y, m)
        invariant
            1 <= m <= 12,
            1970 <= y,
            days_before_month(y as int, m as int) + left < year_length(y as int),
            days_before_month(y as int, 13) == year_length(y as int),
            days_before_year(y as int) + days_before_month(y as int, m as int) + left == days,
        decreases 12 - m,
    {
        proof {
            if m == 12 {
                assert(days_before_month(y as int, 13) == days_before_month(y as int, 12) + month_length(
                    y as int,
                    12,
                ));
            }
        }
        left = left - month_length_exec(y, m);
        m = m + 1;
    }
    (y, m, left + 1)
}

/// The RFC 3339 UTC time of `secs` seconds after the Unix epoch, as the
/// publication time of a bootstrap file. Seconds past `i64::MAX` cannot be
/// had from a clock as a signed count, and are left out.
pub fn rfc3339_utc(secs: u64) -> (r: String)
    requires
        secs <= 0x7fff_ffff_ffff_ffff,
    ensures
        r@ == rfc3339_spec(secs as nat),
{
    let days = secs / 86400;
    let rem = secs % 86400;
    let (year, m, d) = civil_exec(days);
    proof {
        let t = (year as int, m as int, d as int);
        let c = date_of_day(days as int);
        assert(is_date(c.0, c.1, c.2) && day_number(c.0, c.1, c.2) == days);
        lemma_date_unique(c, t);
    }
    let mut out: Vec<char> = Vec::new();
    push_padded(&mut out, year, 4);
    out.push('-');
    push_padded(&mut out, m, 2);
    out.push('-');
    push_padded(&mut out, d, 2);
    out.push('T');
    push_padded(&mut out, rem / 3600, 2);
    out.push(':');
    push_padded(&mut out, (rem % 3600) / 60, 2);
    out.push(':');
    push_padded(&mut out, rem % 60, 2);
    out.push('Z');
    proof {
        assert(out@ =~= rfc3339_spec(secs as nat));
    }
    string_of(&out)
}


/// An IANA-format RDAP bootstrap registry file: its format version, when it
/// was made, and its services, each a list of resources with the URLs of the
/// RDAP servers for them. This service lists one server, so there is one
/// service.
#[derive(Debug)]
pub struct BootstrapFile {
    version: String,
    publication: String,
    services: Vec<(Vec<String>, Vec<String>)>,
}

impl BootstrapFile {
    pub closed spec fn version_view(&self) -> Seq<char> {
        self.version@
    }

    pub closed spec fn publication_view(&self) -> Seq<char> {
        self.publication@
    }

    pub closed spec fn services_view(&self) -> Seq<(Seq<Seq<char>>, Seq<Seq<char>>)> {
        self.services@.map_values(
            |e: (Vec<String>, Vec<String>)| (strings_view(e.0@), strings_view(e.1@)),
        )
    }

    /// The format version.
    pub fn version(&self) -> (r: &String)
        ensures
            r@ == self.version_view(),
    {
        &self.version
    }

    /// When the file was made.
    pub fn publication(&self) -> (r: &String)
        ensures
            r@ == self.publication_view(),
    {
        &self.publication
    }

    /// The services: resources, and the URLs of the servers for them.
    pub fn services(&self) -> (r: &Vec<(Vec<String>, Vec<String>)>)
        ensures
            r@.map_values(|e: (Vec<String>, Vec<String>)| (strings_view(e.0@), strings_view(e.1@)))
                == self.services_view(),
    {
        &self.services
    }
}

/// The bootstrap file of a kind, from the names of the objects of the types
/// that `Kind::object_types` gives, at `now_secs` seconds after the epoch.
pub fn build(kind: Kind, names: &[String], base_url: Option<&str>, path: &str, now_secs: u64) -> (r:
    BootstrapFile)
    requires
        now_secs <= 0x7fff_ffff_ffff_ffff,
    ensures
        r.version_view() == "1.0"@,
        r.publication_view() == rfc3339_spec(now_secs as nat),
        r.services_view().len() == 1,
        r.services_view()[0].1 == seq![service_url_spec(opt_str_view(base_url), path@)],
        strictly_sorted(r.services_view()[0].0),
        forall|x: Seq<char>| #[trigger] r.services_view()[0].0.contains(x) <==> entry_keys(kind, strings_view(names@)).contains(x),
{
    let url = service_base_url(base_url, path);
    let list = entries(kind, names);
    let ghost lv = strings_view(list@);
    let mut urls: Vec<String> = Vec::new();
    urls.push(url);
    let mut services: Vec<(Vec<String>, Vec<String>)> = Vec::new();
    services.push((list, urls));
    let r = BootstrapFile {
        version: String::from_str("1.0"),
        publication: rfc3339_utc(now_secs),
        services,
    };
    proof {
        assert(strings_view(urls@) =~= seq![url@]);
        assert(r.services_view()[0] == (lv, strings_view(urls@)));
    }
    r
}

} // verus!
