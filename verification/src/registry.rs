//! WHOIS queries against the registry: reading a query, choosing the
//! registry files that answer it, and writing the reply.
//!
//! Reading directories and files is left to the caller: `Registry::plan_query`
//! reads the query, `files_to_read` chooses the files from the listings of
//! the directories that `lookup_directories` names, and
//! `Registry::answer_query` writes the reply from the listings and what the
//! files held.
use vstd::prelude::*;
use crate::cidr::{
    RegistryCidr, covers, lemma_parse_registry_name_lower, lemma_replace_lower, parse_registry_name,
    replace_char,
};
use crate::ip::{IpAddress, lemma_parse_ip_lower, parse_ip, parse_ip_chars};
use crate::response::{server_info, server_info_spec};
use crate::rpsl::{RpslObject, rpsl_fields};
use crate::text::{
    ascii_lower, ascii_upper, chars_of, is_ws, lemma_case_absorb, lower_char, lower_vec, push_chars,
    push_str, starts_with, str_eq, string_of, upper_char, upper_vec,
};
use crate::types::{
    candidate_types, candidate_types_spec, is_telephony_number, lemma_candidate_types_lower, strs_view,
};

verus! {

// ---------------------------------------------------------------------------
// Splitting text into words

/// Whether `c` separates words: whitespace, or the given character.
pub open spec fn is_sep(c: char, ws: bool, sep: char) -> bool {
    if ws {
        is_ws(c)
    } else {
        c == sep
    }
}

pub open spec fn skip_seps(s: Seq<char>, i: int, ws: bool, sep: char) -> int
    decreases s.len() - i,
{
    if 0 <= i < s.len() && is_sep(s[i], ws, sep) {
        skip_seps(s, i + 1, ws, sep)
    } else {
        i
    }
}

pub open spec fn skip_word(s: Seq<char>, i: int, ws: bool, sep: char) -> int
    decreases s.len() - i,
{
    if 0 <= i < s.len() && !is_sep(s[i], ws, sep) {
        skip_word(s, i + 1, ws, sep)
    } else {
        i
    }
}

/// The non-empty runs of non-separators from `i` on, in order.
pub open spec fn words_from(s: Seq<char>, i: int, ws: bool, sep: char) -> Seq<Seq<char>>
    decreases s.len() - i,
{
    let a = skip_seps(s, i, ws, sep);
    if a < 0 || a >= s.len() {
        seq![]
    } else {
        let b = skip_word(s, a, ws, sep);
        if a < i || b <= a || b > s.len() {
            seq![]
        } else {
            seq![s.subrange(a, b)] + words_from(s, b, ws, sep)
        }
    }
}

/// `str::split_whitespace`.
pub open spec fn split_whitespace(s: Seq<char>) -> Seq<Seq<char>> {
    words_from(s, 0, true, ' ')
}

/// `str::split(sep)` without the empty pieces.
pub open spec fn split_nonempty(s: Seq<char>, sep: char) -> Seq<Seq<char>> {
    words_from(s, 0, false, sep)
}

fn is_sep_exec(c: char, ws: bool, sep: char) -> (b: bool)
    ensures
        b == is_sep(c, ws, sep),
{
    if ws {
        crate::text::char_is_ws(c)
    } else {
        c == sep
    }
}

/// The view of a list of strings.
pub open spec fn strings_view(v: Seq<String>) -> Seq<Seq<char>> {
    v.map_values(|s: String| s@)
}

/// Splits `s` into its non-empty runs of non-separators.
pub fn words(s: &[char], ws: bool, sep: char) -> (r: Vec<String>)
    ensures
        strings_view(r@) == words_from(s@, 0, ws, sep),
{
    let mut out: Vec<String> = Vec::new();
    let mut i: usize = 0;
    assert(strings_view(out@) =~= seq![]);
    while i < s.len()
        invariant
            i <= s@.len(),
            words_from(s@, 0, ws, sep) == strings_view(out@) + words_from(s@, i as int, ws, sep),
        decreases s@.len() - i,
    {
        let ghost before = strings_view(out@);
        let mut a = i;
        while a < s.len() && is_sep_exec(s[a], ws, sep)
            invariant
                i <= a <= s@.len(),
                skip_seps(s@, a as int, ws, sep) == skip_seps(s@, i as int, ws, sep),
            decreases s@.len() - a,
        {
            a = a + 1;
        }
        if a >= s.len() {
            proof {
                assert(words_from(s@, i as int, ws, sep) =~= seq![]);
                assert(words_from(s@, a as int, ws, sep) =~= seq![]);
            }
            i = a;
        } else {
            let mut b = a;
            while b < s.len() && !is_sep_exec(s[b], ws, sep)
                invariant
                    a <= b <= s@.len(),
                    skip_word(s@, b as int, ws, sep) == skip_word(s@, a as int, ws, sep),
                decreases s@.len() - b,
            {
                b = b + 1;
            }
            let w = crate::text::slice_vec(s, a, b);
            out.push(string_of(&w));
            proof {
                assert(strings_view(out@) =~= before.push(s@.subrange(a as int, b as int)));
                assert(words_from(s@, i as int, ws, sep) =~= seq![s@.subrange(a as int, b as int)]
                    + words_from(s@, b as int, ws, sep));
            }
            i = b;
        }
    }
    proof {
        assert(words_from(s@, i as int, ws, sep) =~= seq![]);
    }
    out
}

// ---------------------------------------------------------------------------
// Queries

/// What a query asks for.
pub struct QueryView {
    pub server_info: Option<Seq<char>>,
    pub type_filter: Seq<Seq<char>>,
    pub type_schema: Option<Seq<char>>,
    pub objects: Seq<Seq<char>>,
}

/// A WHOIS query: options, then the objects to look up.
#[derive(Debug, Clone, PartialEq, Eq)]
pub struct Query {
    pub server_info: Option<String>,
    pub type_filter: Vec<String>,
    pub type_schema: Option<String>,
    pub objects: Vec<String>,
}

pub open spec fn opt_view(o: Option<String>) -> Option<Seq<char>> {
    match o {
        Some(s) => Some(s@),
        None => None,
    }
}

impl View for Query {
    type V = QueryView;

    open spec fn view(&self) -> QueryView {
        QueryView {
            server_info: opt_view(self.server_info),
            type_filter: strings_view(self.type_filter@),
            type_schema: opt_view(self.type_schema),
            objects: strings_view(self.objects@),
        }
    }
}

/// Reads the options from word `i` on: `-q <what>`, `-T <types>` (a comma
/// separated list), and `-t <type>`, each with a value, the last of each
/// kind winning; the first word that does not start with `-` begins the
/// objects. A missing value or an unknown option is an error.
pub open spec fn parse_words(args: Seq<Seq<char>>, i: int, q: QueryView) -> Result<
    QueryView,
    Seq<char>,
>
    decreases args.len() - i,
{
    if i < 0 || i >= args.len() || !(args[i].len() > 0 && args[i][0] == '-') {
        Ok(QueryView { objects: args.skip(i), ..q })
    } else if i + 1 >= args.len() {
        Err("missing value for "@ + args[i])
    } else if args[i] == "-q"@ {
        parse_words(args, i + 2, QueryView { server_info: Some(args[i + 1]), ..q })
    } else if args[i] == "-T"@ {
        parse_words(args, i + 2, QueryView { type_filter: split_nonempty(args[i + 1], ','), ..q })
    } else if args[i] == "-t"@ {
        parse_words(args, i + 2, QueryView { type_schema: Some(args[i + 1]), ..q })
    } else {
        Err("unsupported option "@ + args[i])
    }
}

/// The query that `input` states.
pub open spec fn parse_query_spec(input: Seq<char>) -> Result<QueryView, Seq<char>> {
    parse_words(
        split_whitespace(input),
        0,
        QueryView {
            server_info: None,
            type_filter: seq![],
            type_schema: None,
            objects: seq![],
        },
    )
}

/// Whether a word of a query is an option (starts with `-`).
fn is_option_word(w: &str) -> (b: bool)
    ensures
        b == (w@.len() > 0 && w@[0] == '-'),
{
    let a = chars_of(w);
    a.len() > 0 && a[0] == '-'
}

impl Query {
    /// Reads a query line.
    pub fn parse(input: &str) -> (r: Result<Self, String>)
        ensures
            match (r, parse_query_spec(input@)) {
                (Ok(q), Ok(v)) => q@ == v,
                (Err(e), Err(f)) => e@ == f,
                _ => false,
            },
    {
        let chars = chars_of(input);
        let args = words(&chars, true, ' ');
        let mut query = Query {
            server_info: None,
            type_filter: Vec::new(),
            type_schema: None,
            objects: Vec::new(),
        };
        proof {
            assert(strings_view(query.type_filter@) =~= seq![]);
            assert(strings_view(query.objects@) =~= seq![]);
            assert(query@ == QueryView {
                server_info: None,
                type_filter: seq![],
                type_schema: None,
                objects: seq![],
            });
        }
        let mut i: usize = 0;
        while i < args.len() && is_option_word(args[i].as_str())
            invariant
                i <= args@.len(),
                parse_words(strings_view(args@), i as int, query@) == parse_query_spec(input@),
                query@.objects == Seq::<Seq<char>>::empty(),
            decreases args@.len() - i,
        {
            let ghost av = strings_view(args@);
            if i + 1 >= args.len() {
                let mut msg: Vec<char> = Vec::new();
                push_str(&mut msg, "missing value for ");
                push_str(&mut msg, args[i].as_str());
                return Err(string_of(&msg));
            }
            let arg = args[i].as_str();
            let value = args[i + 1].clone();
            if crate::text::str_eq(arg, "-q") {
                query.server_info = Some(value);
            } else if crate::text::str_eq(arg, "-T") {
                let vc = chars_of(value.as_str());
                query.type_filter = words(&vc, false, ',');
            } else if crate::text::str_eq(arg, "-t") {
                query.type_schema = Some(value);
            } else {
                let mut msg: Vec<char> = Vec::new();
                push_str(&mut msg, "unsupported option ");
                push_str(&mut msg, arg);
                return Err(string_of(&msg));
            }
            i = i + 2;
        }
        let mut objects: Vec<String> = Vec::new();
        let start = i;
        while i < args.len()
            invariant
                start <= i <= args@.len(),
                strings_view(objects@) == strings_view(args@).subrange(start as int, i as int),
            decreases args@.len() - i,
        {
            let ghost before = objects@;
            let o = args[i].clone();
            assert(o@ == args@[i as int]@);
            objects.push(o);
            assert(strings_view(objects@) =~= strings_view(before).push(args@[i as int]@));
            i = i + 1;
            proof {
                assert(strings_view(objects@) =~= strings_view(args@).subrange(
                    start as int,
                    i as int,
                ));
            }
        }
        query.objects = objects;
        proof {
            assert(strings_view(args@).subrange(start as int, i as int) =~= strings_view(
                args@,
            ).skip(start as int));
        }
        Ok(query)
    }
}


// ---------------------------------------------------------------------------
// Choosing the files that answer a query

/// Whether objects of type `t` pass the type filter (an empty filter passes all).
pub open spec fn type_allowed_spec(filter: Seq<Seq<char>>, t: Seq<char>) -> bool {
    filter.len() == 0 || filter.contains(t)
}

/// Whether objects of type `t` pass the type filter.
pub fn type_allowed(filter: &[String], t: &str) -> (r: bool)
    ensures
        r == type_allowed_spec(strings_view(filter@), t@),
{
    if filter.len() == 0 {
        return true;
    }
    let mut k: usize = 0;
    while k < filter.len()
        invariant
            k <= filter@.len(),
            forall|j: int| 0 <= j < k ==> filter@[j]@ != t@,
        decreases filter@.len() - k,
    {
        if str_eq(filter[k].as_str(), t) {
            proof {
                assert(strings_view(filter@)[k as int] == t@);
            }
            return true;
        }
        k = k + 1;
    }
    proof {
        if strings_view(filter@).contains(t@) {
            let j = choose|j: int| 0 <= j < strings_view(filter@).len() && strings_view(filter@)[j] == t@;
            assert(filter@[j]@ == t@);
        }
    }
    false
}

/// The name under which an object of type `t` is filed: DNS names in lower
/// case, all others in upper case.
pub open spec fn normalized_name(t: Seq<char>, object: Seq<char>) -> Seq<char> {
    if t == "dns"@ {
        ascii_lower(object)
    } else {
        ascii_upper(object)
    }
}

pub fn normalized_object_name(t: &str, object: &str) -> (r: Vec<char>)
    ensures
        r@ == normalized_name(t@, object@),
{
    let v = chars_of(object);
    if str_eq(t, "dns") {
        lower_vec(&v)
    } else {
        upper_vec(&v)
    }
}

/// Whether a name, read as a relative path, has a component other than a
/// plain name (as `Path::components` splits it): it starts at the root, it
/// starts with `.`, or one of its `/`-separated parts is `..`.
pub open spec fn unsafe_path(s: Seq<char>) -> bool {
    ||| (s.len() > 0 && s[0] == '/')
    ||| (s.len() > 0 && s[0] == '.' && (s.len() == 1 || s[1] == '/'))
    ||| exists|i: int|
        #![trigger s[i]]
        0 <= i && i + 2 <= s.len() && s[i] == '.' && s[i + 1] == '.' && (i == 0 || s[i - 1]
            == '/') && (i + 2 == s.len() || s[i + 2] == '/')
}

/// Whether `value` could reach outside its directory, or is not a plain name.
pub fn unsafe_path_segment(value: &[char]) -> (r: bool)
    ensures
        r == unsafe_path(value@),
{
    let n = value.len();
    if n > 0 && value[0] == '/' {
        return true;
    }
    if n > 0 && value[0] == '.' && (n == 1 || value[1] == '/') {
        return true;
    }
    let mut i: usize = 0;
    while i < n && n - i >= 2
        invariant
            n == value@.len(),
            i <= n,
            forall|j: int|
                #![trigger value@[j]]
                0 <= j < i ==> !(j + 2 <= n && value@[j] == '.' && value@[j + 1] == '.' && (j == 0
                    || value@[j - 1] == '/') && (j + 2 == n || value@[j + 2] == '/')),
        decreases n - i,
    {
        if value[i] == '.' && value[i + 1] == '.' && (i == 0 || value[i - 1] == '/') && (i + 2
            == n || value[i + 2] == '/') {
            return true;
        }
        i = i + 1;
    }
    false
}

/// Where the address of an object is, when the object names one: a prefix
/// (`a.b.c.d/n`) or an address.
pub open spec fn object_address(o: Seq<char>) -> Option<IpAddress> {
    match parse_registry_name(replace_char(o, '/', '_')) {
        Some((a, _)) => Some(a),
        None => parse_ip(o),
    }
}

/// The object types that hold the prefixes of an address family.
pub open spec fn route_types(a: IpAddress) -> (Seq<char>, Seq<char>) {
    match a {
        IpAddress::V4(_) => ("inetnum"@, "route"@),
        IpAddress::V6(_) => ("inet6num"@, "route6"@),
    }
}

fn route_types_exec(a: IpAddress) -> (r: (&'static str, &'static str))
    ensures
        (r.0@, r.1@) == route_types(a),
{
    match a {
        IpAddress::V4(_) => ("inetnum", "route"),
        IpAddress::V6(_) => ("inet6num", "route6"),
    }
}

/// The listings of registry directories: a type and the file names in its
/// directory.
pub open spec fn listings_view(v: Seq<(String, Vec<String>)>) -> Seq<(Seq<char>, Seq<Seq<char>>)> {
    v.map_values(|e: (String, Vec<String>)| (e.0@, strings_view(e.1@)))
}

/// The file names listed for type `t` (the first listing of `t`), or none.
pub open spec fn listing_of(listings: Seq<(Seq<char>, Seq<Seq<char>>)>, t: Seq<char>, i: int) -> Seq<
    Seq<char>,
>
    decreases listings.len() - i,
{
    if i < 0 || i >= listings.len() {
        seq![]
    } else if listings[i].0 == t {
        listings[i].1
    } else {
        listing_of(listings, t, i + 1)
    }
}

/// The names among `names` that are prefixes covering `addr`, with their
/// prefix lengths, in order.
pub open spec fn matching_names(names: Seq<Seq<char>>, addr: IpAddress) -> Seq<(u8, Seq<char>)>
    decreases names.len(),
{
    if names.len() == 0 {
        seq![]
    } else {
        let rest = matching_names(names.drop_last(), addr);
        match parse_registry_name(names.last()) {
            Some((n, p)) => if covers(n, p, addr) {
                rest.push((p, names.last()))
            } else {
                rest
            },
            None => rest,
        }
    }
}

/// Tags prefix matches with their object type.
pub open spec fn tagged(t: Seq<char>, m: Seq<(u8, Seq<char>)>) -> Seq<(u8, Seq<char>, Seq<char>)> {
    m.map_values(|x: (u8, Seq<char>)| (x.0, t, x.1))
}

/// The prefixes, of the types that the filter passes, that cover `addr`.
pub open spec fn route_matches(
    addr: IpAddress,
    filter: Seq<Seq<char>>,
    listings: Seq<(Seq<char>, Seq<Seq<char>>)>,
) -> Seq<(u8, Seq<char>, Seq<char>)> {
    let (t1, t2) = route_types(addr);
    let m1 = if type_allowed_spec(filter, t1) {
        matching_names(listing_of(listings, t1, 0), addr)
    } else {
        seq![]
    };
    let m2 = if type_allowed_spec(filter, t2) {
        matching_names(listing_of(listings, t2, 0), addr)
    } else {
        seq![]
    };
    tagged(t1, m1) + tagged(t2, m2)
}

/// The matches with prefix length `p`, in order.
pub open spec fn with_prefix(c: Seq<(u8, Seq<char>, Seq<char>)>, p: int) -> Seq<(Seq<char>, Seq<char>)>
    decreases c.len(),
{
    if c.len() == 0 {
        seq![]
    } else {
        let rest = with_prefix(c.drop_last(), p);
        if c.last().0 == p {
            rest.push((c.last().1, c.last().2))
        } else {
            rest
        }
    }
}

/// The matches ordered by prefix length, longest first, from length `p`
/// down; matches of the same length keep their order.
pub open spec fn longest_first(c: Seq<(u8, Seq<char>, Seq<char>)>, p: int) -> Seq<(Seq<char>, Seq<char>)>
    decreases p + 1,
{
    if p < 0 {
        seq![]
    } else {
        with_prefix(c, p) + longest_first(c, p - 1)
    }
}

/// The longest of `names` that is not empty and begins `o`, the first of
/// equally long ones; none when no name does.
pub open spec fn longest_listed_prefix(names: Seq<Seq<char>>, o: Seq<char>) -> Option<Seq<char>>
    decreases names.len(),
{
    if names.len() == 0 {
        None
    } else {
        let rest = longest_listed_prefix(names.drop_last(), o);
        let n = names.last();
        if n.len() > 0 && starts_with(o, n) && (match rest {
            Some(r) => n.len() > r.len(),
            None => true,
        }) {
            Some(n)
        } else {
            rest
        }
    }
}

/// The fallback of a telephony number is a registered name that begins the
/// number, and no registered name that begins it is longer; there is none
/// only when no registered name begins the number.
pub proof fn lemma_longest_listed_prefix(names: Seq<Seq<char>>, o: Seq<char>)
    ensures
        match longest_listed_prefix(names, o) {
            Some(p) => {
                &&& names.contains(p)
                &&& p.len() > 0 && starts_with(o, p)
                &&& forall|i: int|
                    0 <= i < names.len() && names[i].len() > 0 && starts_with(o, #[trigger] names[i])
                        ==> names[i].len() <= p.len()
            },
            None => forall|i: int|
                0 <= i < names.len() ==> !(names[i].len() > 0 && starts_with(o, #[trigger] names[i])),
        },
    decreases names.len(),
{
    if names.len() > 0 {
        let d = names.drop_last();
        let last = names.len() - 1;
        let n = names[last];
        lemma_longest_listed_prefix(d, o);
        assert forall|i: int| 0 <= i < d.len() implies #[trigger] d[i] == names[i] by {}
        match longest_listed_prefix(d, o) {
            Some(r) => {
                let j = choose|j: int| 0 <= j < d.len() && d[j] == r;
                assert(names[j] == r);
                if n.len() > 0 && starts_with(o, n) && n.len() > r.len() {
                    assert(longest_listed_prefix(names, o) == Some(n));
                    assert(names.contains(n)) by {
                        assert(names[last] == n);
                    }
                    assert forall|i: int|
                        0 <= i < names.len() && names[i].len() > 0 && starts_with(o, #[trigger] names[i])
                            implies names[i].len() <= n.len() by {
                        if i < last {
                            assert(d[i] == names[i]);
                        }
                    }
                } else {
                    assert(longest_listed_prefix(names, o) == Some(r));
                    assert forall|i: int|
                        0 <= i < names.len() && names[i].len() > 0 && starts_with(o, #[trigger] names[i])
                            implies names[i].len() <= r.len() by {
                        if i < last {
                            assert(d[i] == names[i]);
                        }
                    }
                }
            },
            None => {
                if n.len() > 0 && starts_with(o, n) {
                    assert(longest_listed_prefix(names, o) == Some(n));
                    assert(names.contains(n)) by {
                        assert(names[last] == n);
                    }
                    assert forall|i: int|
                        0 <= i < names.len() && names[i].len() > 0 && starts_with(o, #[trigger] names[i])
                            implies names[i].len() <= n.len() by {
                        if i < last {
                            assert(d[i] == names[i]);
                        }
                    }
                } else {
                    assert(longest_listed_prefix(names, o) is None);
                    assert forall|i: int| 0 <= i < names.len() implies !(names[i].len() > 0 && starts_with(
                        o,
                        #[trigger] names[i],
                    )) by {
                        if i < last {
                            assert(d[i] == names[i]);
                        }
                    }
                }
            },
        }
    }
}

/// The file under which an object of type `t` is looked up: its normalized
/// name, except that a telephony number that is not registered itself falls
/// back to the longest registered telephony prefix of it, when there is one.
pub open spec fn filed_name(t: Seq<char>, o: Seq<char>, listings: Seq<(Seq<char>, Seq<Seq<char>>)>) -> Seq<
    char,
> {
    let n = normalized_name(t, o);
    if t == "telephony"@ {
        let names = listing_of(listings, t, 0);
        if names.contains(n) {
            n
        } else {
            match longest_listed_prefix(names, n) {
                Some(p) => p,
                None => n,
            }
        }
    } else {
        n
    }
}

/// The registry files named by the types that an object may name.
pub open spec fn named_files(
    types: Seq<Seq<char>>,
    filter: Seq<Seq<char>>,
    o: Seq<char>,
    listings: Seq<(Seq<char>, Seq<Seq<char>>)>,
) -> Seq<(Seq<char>, Seq<char>)>
    decreases types.len(),
{
    if types.len() == 0 {
        seq![]
    } else {
        let rest = named_files(types.drop_last(), filter, o, listings);
        if type_allowed_spec(filter, types.last()) {
            rest.push((types.last(), filed_name(types.last(), o, listings)))
        } else {
            rest
        }
    }
}

/// The files whose names are plain names.
pub open spec fn safe_files(f: Seq<(Seq<char>, Seq<char>)>) -> Seq<(Seq<char>, Seq<char>)>
    decreases f.len(),
{
    if f.len() == 0 {
        seq![]
    } else {
        let rest = safe_files(f.drop_last());
        if unsafe_path(f.last().1) {
            rest
        } else {
            rest.push(f.last())
        }
    }
}

/// The files, as (type, name), that answer one object of a query: when it
/// names an address or prefix, the covering prefixes longest first; then the
/// objects that its text may name.
pub open spec fn object_files(
    o: Seq<char>,
    filter: Seq<Seq<char>>,
    listings: Seq<(Seq<char>, Seq<Seq<char>>)>,
) -> Seq<(Seq<char>, Seq<char>)> {
    let routes = match object_address(o) {
        Some(a) => longest_first(route_matches(a, filter, listings), 255),
        None => seq![],
    };
    safe_files(routes + named_files(candidate_types_spec(o), filter, o, listings))
}

/// The files that answer the objects of a query, in order.
pub open spec fn query_files(
    objects: Seq<Seq<char>>,
    filter: Seq<Seq<char>>,
    listings: Seq<(Seq<char>, Seq<Seq<char>>)>,
) -> Seq<(Seq<char>, Seq<char>)>
    decreases objects.len(),
{
    if objects.len() == 0 {
        seq![]
    } else {
        query_files(objects.drop_last(), filter, listings) + object_files(
            objects.last(),
            filter,
            listings,
        )
    }
}

/// Every file that `safe_files` keeps has a plain name.
pub proof fn lemma_safe_files(f: Seq<(Seq<char>, Seq<char>)>)
    ensures
        forall|i: int| 0 <= i < safe_files(f).len() ==> !unsafe_path(#[trigger] safe_files(f)[i].1),
    decreases f.len(),
{
    if f.len() > 0 {
        let rest = safe_files(f.drop_last());
        lemma_safe_files(f.drop_last());
        assert forall|i: int| 0 <= i < safe_files(f).len() implies !unsafe_path(
            #[trigger] safe_files(f)[i].1,
        ) by {
            if i < rest.len() {
                assert(safe_files(f)[i] == rest[i]);
            }
        }
    }
}

/// A query never reads outside the registry's object directories: every
/// file it names is a plain name inside the directory of its type.
pub proof fn lemma_query_files_safe(
    objects: Seq<Seq<char>>,
    filter: Seq<Seq<char>>,
    listings: Seq<(Seq<char>, Seq<Seq<char>>)>,
)
    ensures
        forall|i: int|
            0 <= i < query_files(objects, filter, listings).len() ==> !unsafe_path(
                #[trigger] query_files(objects, filter, listings)[i].1,
            ),
    decreases objects.len(),
{
    if objects.len() > 0 {
        let rest = query_files(objects.drop_last(), filter, listings);
        let last = objects.last();
        let routes = match object_address(last) {
            Some(a) => longest_first(route_matches(a, filter, listings), 255),
            None => seq![],
        };
        let f = routes + named_files(candidate_types_spec(last), filter, last, listings);
        lemma_query_files_safe(objects.drop_last(), filter, listings);
        lemma_safe_files(f);
        let all = query_files(objects, filter, listings);
        assert forall|i: int| 0 <= i < all.len() implies !unsafe_path(#[trigger] all[i].1) by {
            if i < rest.len() {
                assert(all[i] == rest[i]);
            } else {
                assert(all[i] == safe_files(f)[i - rest.len()]);
            }
        }
    }
}

/// Every file of `f` is of a type that `filter` passes.
pub open spec fn types_allowed(f: Seq<(Seq<char>, Seq<char>)>, filter: Seq<Seq<char>>) -> bool {
    forall|i: int| 0 <= i < f.len() ==> type_allowed_spec(filter, #[trigger] f[i].0)
}

proof fn lemma_safe_files_allowed(f: Seq<(Seq<char>, Seq<char>)>, filter: Seq<Seq<char>>)
    requires
        types_allowed(f, filter),
    ensures
        types_allowed(safe_files(f), filter),
    decreases f.len(),
{
    if f.len() > 0 {
        let rest = safe_files(f.drop_last());
        assert(types_allowed(f.drop_last(), filter)) by {
            assert forall|i: int| 0 <= i < f.drop_last().len() implies type_allowed_spec(
                filter,
                #[trigger] f.drop_last()[i].0,
            ) by {
                assert(f.drop_last()[i] == f[i]);
            }
        }
        lemma_safe_files_allowed(f.drop_last(), filter);
        assert forall|i: int| 0 <= i < safe_files(f).len() implies type_allowed_spec(
            filter,
            #[trigger] safe_files(f)[i].0,
        ) by {
            if i < rest.len() {
                assert(safe_files(f)[i] == rest[i]);
            } else {
                assert(safe_files(f)[i] == f.last());
            }
        }
    }
}

proof fn lemma_named_files_allowed(
    types: Seq<Seq<char>>,
    filter: Seq<Seq<char>>,
    o: Seq<char>,
    listings: Seq<(Seq<char>, Seq<Seq<char>>)>,
)
    ensures
        types_allowed(named_files(types, filter, o, listings), filter),
    decreases types.len(),
{
    if types.len() > 0 {
        let rest = named_files(types.drop_last(), filter, o, listings);
        lemma_named_files_allowed(types.drop_last(), filter, o, listings);
        let f = named_files(types, filter, o, listings);
        assert forall|i: int| 0 <= i < f.len() implies type_allowed_spec(filter, #[trigger] f[i].0) by {
            if i < rest.len() {
                assert(f[i] == rest[i]);
            }
        }
    }
}

/// Whether every match in `c` is of a type that `filter` passes.
spec fn matches_allowed(c: Seq<(u8, Seq<char>, Seq<char>)>, filter: Seq<Seq<char>>) -> bool {
    forall|j: int| 0 <= j < c.len() ==> type_allowed_spec(filter, #[trigger] c[j].1)
}

proof fn lemma_with_prefix_allowed(c: Seq<(u8, Seq<char>, Seq<char>)>, p: int, filter: Seq<Seq<char>>)
    requires
        matches_allowed(c, filter),
    ensures
        types_allowed(with_prefix(c, p), filter),
    decreases c.len(),
{
    if c.len() > 0 {
        let rest = with_prefix(c.drop_last(), p);
        assert(matches_allowed(c.drop_last(), filter)) by {
            assert forall|j: int| 0 <= j < c.drop_last().len() implies type_allowed_spec(
                filter,
                #[trigger] c.drop_last()[j].1,
            ) by {
                assert(c.drop_last()[j] == c[j]);
            }
        }
        lemma_with_prefix_allowed(c.drop_last(), p, filter);
        let f = with_prefix(c, p);
        assert(type_allowed_spec(filter, c[c.len() - 1].1));
        assert forall|i: int| 0 <= i < f.len() implies type_allowed_spec(filter, #[trigger] f[i].0) by {
            if i < rest.len() {
                assert(f[i] == rest[i]);
            }
        }
    }
}

proof fn lemma_longest_first_allowed(c: Seq<(u8, Seq<char>, Seq<char>)>, p: int, filter: Seq<Seq<char>>)
    requires
        matches_allowed(c, filter),
    ensures
        types_allowed(longest_first(c, p), filter),
    decreases p + 1,
{
    if p >= 0 {
        lemma_with_prefix_allowed(c, p, filter);
        lemma_longest_first_allowed(c, p - 1, filter);
        let a = with_prefix(c, p);
        let b = longest_first(c, p - 1);
        let f = longest_first(c, p);
        assert forall|i: int| 0 <= i < f.len() implies type_allowed_spec(filter, #[trigger] f[i].0) by {
            if i < a.len() {
                assert(f[i] == a[i]);
            } else {
                assert(f[i] == b[i - a.len()]);
            }
        }
    }
}

proof fn lemma_route_matches_allowed(
    addr: IpAddress,
    filter: Seq<Seq<char>>,
    listings: Seq<(Seq<char>, Seq<Seq<char>>)>,
)
    ensures
        matches_allowed(route_matches(addr, filter, listings), filter),
{
    let (t1, t2) = route_types(addr);
    let m1 = if type_allowed_spec(filter, t1) {
        matching_names(listing_of(listings, t1, 0), addr)
    } else {
        seq![]
    };
    let m2 = if type_allowed_spec(filter, t2) {
        matching_names(listing_of(listings, t2, 0), addr)
    } else {
        seq![]
    };
    let c = route_matches(addr, filter, listings);
    assert forall|j: int| 0 <= j < c.len() implies type_allowed_spec(filter, #[trigger] c[j].1) by {
        if j < m1.len() {
            assert(c[j] == tagged(t1, m1)[j]);
        } else {
            assert(c[j] == tagged(t2, m2)[j - m1.len()]);
        }
    }
}

/// A type filter limits what a query reads: every file it names is of a
/// type that the filter passes.
pub proof fn lemma_query_files_allowed(
    objects: Seq<Seq<char>>,
    filter: Seq<Seq<char>>,
    listings: Seq<(Seq<char>, Seq<Seq<char>>)>,
)
    ensures
        types_allowed(query_files(objects, filter, listings), filter),
    decreases objects.len(),
{
    if objects.len() > 0 {
        let rest = query_files(objects.drop_last(), filter, listings);
        let last = objects.last();
        let routes = match object_address(last) {
            Some(a) => longest_first(route_matches(a, filter, listings), 255),
            None => seq![],
        };
        match object_address(last) {
            Some(a) => {
                lemma_route_matches_allowed(a, filter, listings);
                lemma_longest_first_allowed(route_matches(a, filter, listings), 255, filter);
            },
            None => {},
        }
        let named = named_files(candidate_types_spec(last), filter, last, listings);
        lemma_named_files_allowed(candidate_types_spec(last), filter, last, listings);
        let f = routes + named;
        assert forall|i: int| 0 <= i < f.len() implies type_allowed_spec(filter, #[trigger] f[i].0) by {
            if i < routes.len() {
                assert(f[i] == routes[i]);
            } else {
                assert(f[i] == named[i - routes.len()]);
            }
        }
        lemma_safe_files_allowed(f, filter);
        lemma_query_files_allowed(objects.drop_last(), filter, listings);
        let all = query_files(objects, filter, listings);
        assert forall|i: int| 0 <= i < all.len() implies type_allowed_spec(filter, #[trigger] all[i].0) by {
            if i < rest.len() {
                assert(all[i] == rest[i]);
            } else {
                assert(all[i] == safe_files(f)[i - rest.len()]);
            }
        }
    }
}

/// The prefix length that a registry file name gives, or -1 for a name that
/// is no prefix.
pub open spec fn name_prefix(name: Seq<char>) -> int {
    match parse_registry_name(name) {
        Some((_, p)) => p as int,
        None => -1,
    }
}

/// Whether the files of `f` come in order of their prefix lengths, longest
/// first.
pub open spec fn longest_prefix_first(f: Seq<(Seq<char>, Seq<char>)>) -> bool {
    forall|i: int, j: int| 0 <= i < j < f.len() ==> name_prefix(#[trigger] f[i].1) >= name_prefix(#[trigger] f[j].1)
}

proof fn lemma_matching_names_prefix(names: Seq<Seq<char>>, addr: IpAddress)
    ensures
        forall|j: int|
            0 <= j < matching_names(names, addr).len() ==> name_prefix(
                (#[trigger] matching_names(names, addr)[j]).1,
            ) == matching_names(names, addr)[j].0,
    decreases names.len(),
{
    if names.len() > 0 {
        let rest = matching_names(names.drop_last(), addr);
        lemma_matching_names_prefix(names.drop_last(), addr);
        let m = matching_names(names, addr);
        assert forall|j: int| 0 <= j < m.len() implies name_prefix((#[trigger] m[j]).1) == m[j].0 by {
            if j < rest.len() {
                assert(m[j] == rest[j]);
            }
        }
    }
}

/// Whether each match in `c` carries the prefix length of its name.
spec fn matches_tagged(c: Seq<(u8, Seq<char>, Seq<char>)>) -> bool {
    forall|j: int| 0 <= j < c.len() ==> name_prefix((#[trigger] c[j]).2) == c[j].0
}

proof fn lemma_route_matches_tagged(
    addr: IpAddress,
    filter: Seq<Seq<char>>,
    listings: Seq<(Seq<char>, Seq<Seq<char>>)>,
)
    ensures
        matches_tagged(route_matches(addr, filter, listings)),
{
    let (t1, t2) = route_types(addr);
    let m1 = if type_allowed_spec(filter, t1) {
        matching_names(listing_of(listings, t1, 0), addr)
    } else {
        seq![]
    };
    let m2 = if type_allowed_spec(filter, t2) {
        matching_names(listing_of(listings, t2, 0), addr)
    } else {
        seq![]
    };
    lemma_matching_names_prefix(listing_of(listings, t1, 0), addr);
    lemma_matching_names_prefix(listing_of(listings, t2, 0), addr);
    let c = route_matches(addr, filter, listings);
    assert forall|j: int| 0 <= j < c.len() implies name_prefix((#[trigger] c[j]).2) == c[j].0 by {
        if j < m1.len() {
            assert(c[j] == tagged(t1, m1)[j]);
            assert(m1[j] == matching_names(listing_of(listings, t1, 0), addr)[j]);
        } else {
            assert(c[j] == tagged(t2, m2)[j - m1.len()]);
            assert(m2[j - m1.len()] == matching_names(listing_of(listings, t2, 0), addr)[j - m1.len()]);
        }
    }
}

proof fn lemma_with_prefix_prefix(c: Seq<(u8, Seq<char>, Seq<char>)>, p: int)
    requires
        matches_tagged(c),
    ensures
        forall|i: int| 0 <= i < with_prefix(c, p).len() ==> name_prefix(#[trigger] with_prefix(c, p)[i].1) == p,
    decreases c.len(),
{
    if c.len() > 0 {
        let rest = with_prefix(c.drop_last(), p);
        assert(matches_tagged(c.drop_last())) by {
            assert forall|j: int| 0 <= j < c.drop_last().len() implies name_prefix(
                (#[trigger] c.drop_last()[j]).2,
            ) == c.drop_last()[j].0 by {
                assert(c.drop_last()[j] == c[j]);
            }
        }
        lemma_with_prefix_prefix(c.drop_last(), p);
        let f = with_prefix(c, p);
        assert(name_prefix(c[c.len() - 1].2) == c[c.len() - 1].0);
        assert forall|i: int| 0 <= i < f.len() implies name_prefix(#[trigger] f[i].1) == p by {
            if i < rest.len() {
                assert(f[i] == rest[i]);
            }
        }
    }
}

proof fn lemma_longest_first_order(c: Seq<(u8, Seq<char>, Seq<char>)>, p: int)
    requires
        matches_tagged(c),
    ensures
        longest_prefix_first(longest_first(c, p)),
        forall|i: int| 0 <= i < longest_first(c, p).len() ==> name_prefix(#[trigger] longest_first(c, p)[i].1) <= p,
    decreases p + 1,
{
    if p >= 0 {
        lemma_with_prefix_prefix(c, p);
        lemma_longest_first_order(c, p - 1);
        let a = with_prefix(c, p);
        let b = longest_first(c, p - 1);
        let f = longest_first(c, p);
        assert forall|i: int| 0 <= i < f.len() implies name_prefix(#[trigger] f[i].1) <= p by {
            if i < a.len() {
                assert(f[i] == a[i]);
            } else {
                assert(f[i] == b[i - a.len()]);
            }
        }
        assert forall|i: int, j: int| 0 <= i < j < f.len() implies name_prefix(#[trigger] f[i].1) >= name_prefix(
            #[trigger] f[j].1,
        ) by {
            if j < a.len() {
                assert(f[i] == a[i] && f[j] == a[j]);
            } else if i < a.len() {
                assert(f[i] == a[i] && f[j] == b[j - a.len()]);
            } else {
                assert(f[i] == b[i - a.len()] && f[j] == b[j - a.len()]);
            }
        }
    }
}

proof fn lemma_safe_files_order(f: Seq<(Seq<char>, Seq<char>)>)
    requires
        longest_prefix_first(f),
    ensures
        longest_prefix_first(safe_files(f)),
        forall|i: int| 0 <= i < safe_files(f).len() ==> exists|j: int| 0 <= j < f.len() && #[trigger] safe_files(f)[i] == f[j],
    decreases f.len(),
{
    if f.len() > 0 {
        let d = f.drop_last();
        assert(longest_prefix_first(d)) by {
            assert forall|i: int, j: int| 0 <= i < j < d.len() implies name_prefix(#[trigger] d[i].1) >= name_prefix(
                #[trigger] d[j].1,
            ) by {
                assert(d[i] == f[i] && d[j] == f[j]);
            }
        }
        lemma_safe_files_order(d);
        let rest = safe_files(d);
        let r = safe_files(f);
        assert forall|i: int| 0 <= i < r.len() implies exists|j: int| 0 <= j < f.len() && #[trigger] r[i] == f[j] by {
            if i < rest.len() {
                assert(r[i] == rest[i]);
                let j = choose|j: int| 0 <= j < d.len() && rest[i] == d[j];
                assert(r[i] == f[j]);
            } else {
                assert(r[i] == f[f.len() - 1]);
            }
        }
        assert forall|i: int, j: int| 0 <= i < j < r.len() implies name_prefix(#[trigger] r[i].1) >= name_prefix(
            #[trigger] r[j].1,
        ) by {
            assert(r[i] == rest[i]);
            if j < rest.len() {
                assert(r[j] == rest[j]);
            } else {
                let k = choose|k: int| 0 <= k < d.len() && rest[i] == d[k];
                assert(r[j] == f[f.len() - 1]);
                assert(f[k] == d[k]);
            }
        }
    }
}

/// An address lookup lists the prefixes that cover the address most
/// specific first: the prefix lengths of its files never grow.
pub proof fn lemma_ip_lookup_longest_first(addr: IpAddress, listings: Seq<(Seq<char>, Seq<Seq<char>>)>)
    ensures
        longest_prefix_first(safe_files(longest_first(route_matches(addr, seq![], listings), 255))),
{
    lemma_route_matches_tagged(addr, seq![], listings);
    lemma_longest_first_order(route_matches(addr, seq![], listings), 255);
    lemma_safe_files_order(longest_first(route_matches(addr, seq![], listings), 255));
}

proof fn lemma_with_prefix_names(c: Seq<(u8, Seq<char>, Seq<char>)>, p: int, pred: spec_fn(Seq<char>) -> bool)
    requires
        forall|j: int| 0 <= j < c.len() ==> pred(#[trigger] c[j].2),
    ensures
        forall|i: int| 0 <= i < with_prefix(c, p).len() ==> pred(#[trigger] with_prefix(c, p)[i].1),
    decreases c.len(),
{
    if c.len() > 0 {
        let rest = with_prefix(c.drop_last(), p);
        assert forall|j: int| 0 <= j < c.drop_last().len() implies pred(#[trigger] c.drop_last()[j].2) by {
            assert(c.drop_last()[j] == c[j]);
        }
        lemma_with_prefix_names(c.drop_last(), p, pred);
        let f = with_prefix(c, p);
        assert(pred(c[c.len() - 1].2));
        assert forall|i: int| 0 <= i < f.len() implies pred(#[trigger] f[i].1) by {
            if i < rest.len() {
                assert(f[i] == rest[i]);
            }
        }
    }
}

proof fn lemma_longest_first_names(c: Seq<(u8, Seq<char>, Seq<char>)>, p: int, pred: spec_fn(Seq<char>) -> bool)
    requires
        forall|j: int| 0 <= j < c.len() ==> pred(#[trigger] c[j].2),
    ensures
        forall|i: int| 0 <= i < longest_first(c, p).len() ==> pred(#[trigger] longest_first(c, p)[i].1),
    decreases p + 1,
{
    if p >= 0 {
        lemma_with_prefix_names(c, p, pred);
        lemma_longest_first_names(c, p - 1, pred);
        let a = with_prefix(c, p);
        let b = longest_first(c, p - 1);
        let f = longest_first(c, p);
        assert forall|i: int| 0 <= i < f.len() implies pred(#[trigger] f[i].1) by {
            if i < a.len() {
                assert(f[i] == a[i]);
            } else {
                assert(f[i] == b[i - a.len()]);
            }
        }
    }
}

proof fn lemma_safe_files_names(f: Seq<(Seq<char>, Seq<char>)>, pred: spec_fn(Seq<char>) -> bool)
    requires
        forall|j: int| 0 <= j < f.len() ==> pred(#[trigger] f[j].1),
    ensures
        forall|i: int| 0 <= i < safe_files(f).len() ==> pred(#[trigger] safe_files(f)[i].1),
    decreases f.len(),
{
    if f.len() > 0 {
        let rest = safe_files(f.drop_last());
        assert forall|j: int| 0 <= j < f.drop_last().len() implies pred(#[trigger] f.drop_last()[j].1) by {
            assert(f.drop_last()[j] == f[j]);
        }
        lemma_safe_files_names(f.drop_last(), pred);
        let r = safe_files(f);
        assert(pred(f[f.len() - 1].1));
        assert forall|i: int| 0 <= i < r.len() implies pred(#[trigger] r[i].1) by {
            if i < rest.len() {
                assert(r[i] == rest[i]);
            }
        }
    }
}

/// Whether `name` is a registry prefix that covers `addr`.
pub open spec fn name_covers(name: Seq<char>, addr: IpAddress) -> bool {
    match parse_registry_name(name) {
        Some((n, p)) => covers(n, p, addr),
        None => false,
    }
}

proof fn lemma_matching_names_cover(names: Seq<Seq<char>>, addr: IpAddress)
    ensures
        forall|j: int|
            0 <= j < matching_names(names, addr).len() ==> name_covers(
                (#[trigger] matching_names(names, addr)[j]).1,
                addr,
            ),
    decreases names.len(),
{
    if names.len() > 0 {
        let rest = matching_names(names.drop_last(), addr);
        lemma_matching_names_cover(names.drop_last(), addr);
        let m = matching_names(names, addr);
        assert forall|j: int| 0 <= j < m.len() implies name_covers((#[trigger] m[j]).1, addr) by {
            if j < rest.len() {
                assert(m[j] == rest[j]);
            }
        }
    }
}

/// An address lookup reads only prefixes that cover the address.
pub proof fn lemma_ip_lookup_covers(addr: IpAddress, listings: Seq<(Seq<char>, Seq<Seq<char>>)>)
    ensures
        forall|i: int|
            0 <= i < safe_files(longest_first(route_matches(addr, seq![], listings), 255)).len()
                ==> name_covers(
                #[trigger] safe_files(longest_first(route_matches(addr, seq![], listings), 255))[i].1,
                addr,
            ),
{
    let (t1, t2) = route_types(addr);
    let filter = Seq::<Seq<char>>::empty();
    let m1 = matching_names(listing_of(listings, t1, 0), addr);
    let m2 = matching_names(listing_of(listings, t2, 0), addr);
    lemma_matching_names_cover(listing_of(listings, t1, 0), addr);
    lemma_matching_names_cover(listing_of(listings, t2, 0), addr);
    let c = route_matches(addr, filter, listings);
    let pred = |n: Seq<char>| name_covers(n, addr);
    assert forall|j: int| 0 <= j < c.len() implies pred(#[trigger] c[j].2) by {
        if j < m1.len() {
            assert(c[j] == tagged(t1, m1)[j]);
        } else {
            assert(c[j] == tagged(t2, m2)[j - m1.len()]);
        }
    }
    lemma_longest_first_names(c, 255, pred);
    lemma_safe_files_names(longest_first(c, 255), pred);
}

proof fn lemma_matching_names_has(names: Seq<Seq<char>>, addr: IpAddress, k: int, b: IpAddress, q: u8)
    requires
        0 <= k < names.len(),
        parse_registry_name(names[k]) == Some((b, q)),
        covers(b, q, addr),
    ensures
        matching_names(names, addr).contains((q, names[k])),
    decreases names.len(),
{
    let d = names.drop_last();
    let rest = matching_names(d, addr);
    if k == names.len() - 1 {
        assert(names.last() == names[k]);
        assert(matching_names(names, addr) == rest.push((q, names[k])));
        assert(matching_names(names, addr)[rest.len() as int] == (q, names[k]));
    } else {
        assert(d[k] == names[k]);
        lemma_matching_names_has(d, addr, k, b, q);
        let j = choose|j: int| 0 <= j < rest.len() && rest[j] == (q, names[k]);
        assert(matching_names(names, addr)[j] == rest[j]);
    }
}

proof fn lemma_with_prefix_has(c: Seq<(u8, Seq<char>, Seq<char>)>, j: int)
    requires
        0 <= j < c.len(),
    ensures
        with_prefix(c, c[j].0 as int).contains((c[j].1, c[j].2)),
    decreases c.len(),
{
    let p = c[j].0 as int;
    let d = c.drop_last();
    let rest = with_prefix(d, p);
    if j == c.len() - 1 {
        assert(with_prefix(c, p) == rest.push((c.last().1, c.last().2)));
        assert(with_prefix(c, p)[rest.len() as int] == (c[j].1, c[j].2));
    } else {
        assert(d[j] == c[j]);
        lemma_with_prefix_has(d, j);
        let i = choose|i: int| 0 <= i < rest.len() && rest[i] == (c[j].1, c[j].2);
        assert(with_prefix(c, p)[i] == rest[i]);
    }
}

proof fn lemma_longest_first_has(c: Seq<(u8, Seq<char>, Seq<char>)>, p: int, j: int)
    requires
        0 <= j < c.len(),
        c[j].0 <= p,
    ensures
        longest_first(c, p).contains((c[j].1, c[j].2)),
    decreases p + 1,
{
    let w = with_prefix(c, p);
    let r = longest_first(c, p - 1);
    assert(longest_first(c, p) == w + r);
    if c[j].0 == p {
        lemma_with_prefix_has(c, j);
        let i = choose|i: int| 0 <= i < w.len() && w[i] == (c[j].1, c[j].2);
        assert((w + r)[i] == w[i]);
    } else {
        lemma_longest_first_has(c, p - 1, j);
        let i = choose|i: int| 0 <= i < r.len() && r[i] == (c[j].1, c[j].2);
        assert((w + r)[w.len() + i] == r[i]);
    }
}

proof fn lemma_safe_files_has(f: Seq<(Seq<char>, Seq<char>)>, j: int)
    requires
        0 <= j < f.len(),
        !unsafe_path(f[j].1),
    ensures
        safe_files(f).contains(f[j]),
    decreases f.len(),
{
    let d = f.drop_last();
    let rest = safe_files(d);
    if j == f.len() - 1 {
        assert(safe_files(f) == rest.push(f.last()));
        assert(safe_files(f)[rest.len() as int] == f[j]);
    } else {
        assert(d[j] == f[j]);
        lemma_safe_files_has(d, j);
        let i = choose|i: int| 0 <= i < rest.len() && rest[i] == f[j];
        if unsafe_path(f.last().1) {
            assert(safe_files(f) == rest);
        } else {
            assert(safe_files(f)[i] == rest[i]);
        }
    }
}

/// The address that an object names: a prefix `<address>/<length>`, or else
/// a plain address.
pub open spec fn names_address(o: Seq<char>, a: IpAddress) -> bool {
    match parse_registry_name(replace_char(o, '/', '_')) {
        Some((x, _)) => x == a,
        None => parse_ip(o) == Some(a),
    }
}

/// The object types that hold the prefixes of an address family, as
/// literals: `inetnum` and `route` for IPv4, `inet6num` and `route6` for
/// IPv6.
pub open spec fn is_prefix_type_of(a: IpAddress, t: Seq<char>) -> bool {
    match a {
        IpAddress::V4(_) => t == "inetnum"@ || t == "route"@,
        IpAddress::V6(_) => t == "inet6num"@ || t == "route6"@,
    }
}

/// The prefix lookup misses nothing: when an object names an address or a
/// prefix (of either family), every listed prefix file of that family's
/// types that the filter passes, that covers the address and whose name is a
/// plain name, is among the files to read for that object.
pub proof fn lemma_prefix_lookup_complete(
    o: Seq<char>,
    a: IpAddress,
    filter: Seq<Seq<char>>,
    listings: Seq<(Seq<char>, Seq<Seq<char>>)>,
    t: Seq<char>,
    n: Seq<char>,
    b: IpAddress,
    q: u8,
)
    requires
        names_address(o, a),
        is_prefix_type_of(a, t),
        type_allowed_spec(filter, t),
        listing_of(listings, t, 0).contains(n),
        parse_registry_name(n) == Some((b, q)),
        covers(b, q, a),
        !unsafe_path(n),
    ensures
        object_files(o, filter, listings).contains((t, n)),
{
    assert(object_address(o) == Some(a));
    let (t1, t2) = route_types(a);
    let names = listing_of(listings, t, 0);
    let k = choose|k: int| 0 <= k < names.len() && names[k] == n;
    lemma_matching_names_has(names, a, k, b, q);
    let m = matching_names(names, a);
    let i = choose|i: int| 0 <= i < m.len() && m[i] == (q, n);
    let m1 = if type_allowed_spec(filter, t1) {
        matching_names(listing_of(listings, t1, 0), a)
    } else {
        seq![]
    };
    let m2 = if type_allowed_spec(filter, t2) {
        matching_names(listing_of(listings, t2, 0), a)
    } else {
        seq![]
    };
    let c = route_matches(a, filter, listings);
    assert(c == tagged(t1, m1) + tagged(t2, m2));
    reveal_strlit("inetnum");
    reveal_strlit("route");
    reveal_strlit("inet6num");
    reveal_strlit("route6");
    let j = if t == t1 {
        assert(m1 == m);
        assert(c[i] == tagged(t1, m1)[i]);
        i
    } else {
        assert(t == t2);
        assert(m2 == m);
        assert(c[m1.len() + i] == tagged(t2, m2)[i]);
        m1.len() + i
    };
    assert(c[j] == (q, t, n));
    lemma_longest_first_has(c, 255, j);
    let routes = longest_first(c, 255);
    let r = choose|r: int| 0 <= r < routes.len() && routes[r] == (t, n);
    let f = routes + named_files(candidate_types_spec(o), filter, o, listings);
    assert(f[r] == (t, n));
    lemma_safe_files_has(f, r);
}

/// The same for a whole query: the prefix files that cover an address that
/// one of its objects names are all among the files to read.
pub proof fn lemma_query_prefix_lookup_complete(
    objects: Seq<Seq<char>>,
    x: int,
    a: IpAddress,
    filter: Seq<Seq<char>>,
    listings: Seq<(Seq<char>, Seq<Seq<char>>)>,
    t: Seq<char>,
    n: Seq<char>,
    b: IpAddress,
    q: u8,
)
    requires
        0 <= x < objects.len(),
        names_address(objects[x], a),
        is_prefix_type_of(a, t),
        type_allowed_spec(filter, t),
        listing_of(listings, t, 0).contains(n),
        parse_registry_name(n) == Some((b, q)),
        covers(b, q, a),
        !unsafe_path(n),
    ensures
        query_files(objects, filter, listings).contains((t, n)),
    decreases objects.len(),
{
    let d = objects.drop_last();
    let rest = query_files(d, filter, listings);
    let last = object_files(objects.last(), filter, listings);
    assert(query_files(objects, filter, listings) == rest + last);
    if x == objects.len() - 1 {
        lemma_prefix_lookup_complete(objects.last(), a, filter, listings, t, n, b, q);
        let i = choose|i: int| 0 <= i < last.len() && last[i] == (t, n);
        assert((rest + last)[rest.len() + i] == last[i]);
    } else {
        assert(d[x] == objects[x]);
        lemma_query_prefix_lookup_complete(d, x, a, filter, listings, t, n, b, q);
        let i = choose|i: int| 0 <= i < rest.len() && rest[i] == (t, n);
        assert((rest + last)[i] == rest[i]);
    }
}

proof fn lemma_object_address_lower(o: Seq<char>)
    ensures
        object_address(ascii_lower(o)) == object_address(o),
{
    lemma_replace_lower(o);
    lemma_parse_registry_name_lower(replace_char(o, '/', '_'));
    lemma_parse_ip_lower(o);
}

proof fn lemma_named_files_lower(
    types: Seq<Seq<char>>,
    filter: Seq<Seq<char>>,
    o: Seq<char>,
    listings: Seq<(Seq<char>, Seq<Seq<char>>)>,
)
    ensures
        named_files(types, filter, ascii_lower(o), listings) == named_files(types, filter, o, listings),
    decreases types.len(),
{
    lemma_case_absorb(o);
    if types.len() > 0 {
        lemma_named_files_lower(types.drop_last(), filter, o, listings);
        assert(normalized_name(types.last(), ascii_lower(o)) == normalized_name(types.last(), o));
    }
}

proof fn lemma_object_files_lower(
    o: Seq<char>,
    filter: Seq<Seq<char>>,
    listings: Seq<(Seq<char>, Seq<Seq<char>>)>,
)
    ensures
        object_files(ascii_lower(o), filter, listings) == object_files(o, filter, listings),
{
    lemma_object_address_lower(o);
    lemma_candidate_types_lower(o);
    lemma_named_files_lower(candidate_types_spec(o), filter, o, listings);
}

proof fn lemma_query_files_one(o: Seq<char>, filter: Seq<Seq<char>>, listings: Seq<(Seq<char>, Seq<Seq<char>>)>)
    ensures
        query_files(seq![o], filter, listings) == object_files(o, filter, listings),
{
    let all = seq![o];
    assert(all.drop_last() =~= Seq::<Seq<char>>::empty());
    assert(all.last() == o);
    let f = object_files(o, filter, listings);
    assert(query_files(all.drop_last(), filter, listings) =~= Seq::<(Seq<char>, Seq<char>)>::empty());
    assert(query_files(all, filter, listings) == query_files(all.drop_last(), filter, listings) + f);
    assert(Seq::<(Seq<char>, Seq<char>)>::empty() + f =~= f);
}

/// The query of one object.
pub open spec fn one_object_query(o: Seq<char>, filter: Seq<Seq<char>>) -> QueryView {
    QueryView { objects: seq![o], type_filter: filter, server_info: None, type_schema: None }
}

proof fn lemma_dirs_one(o: Seq<char>, p: Seq<char>, filter: Seq<Seq<char>>)
    requires
        object_address(o) == object_address(p),
        is_telephony_number(o) == is_telephony_number(p),
    ensures
        lookup_dirs_spec(one_object_query(o, filter)) == lookup_dirs_spec(one_object_query(p, filter)),
{
    let qo = one_object_query(o, filter);
    let qp = one_object_query(p, filter);
    assert(qo.objects[0] == o && qp.objects[0] == p);
    assert(in_family(object_address(qo.objects[0]), false) == in_family(object_address(qp.objects[0]), false));
    assert(in_family(object_address(qo.objects[0]), true) == in_family(object_address(qp.objects[0]), true));
    assert(is_telephony_number(qo.objects[0]) == is_telephony_number(qp.objects[0]));
}

/// An object gets the same answer whatever its ASCII letter case: the same
/// directories to list and the same files to read, for it alone and as the
/// one object of a query.
pub proof fn lemma_object_files_case(
    o: Seq<char>,
    filter: Seq<Seq<char>>,
    listings: Seq<(Seq<char>, Seq<Seq<char>>)>,
)
    ensures
        object_files(ascii_upper(o), filter, listings) == object_files(o, filter, listings),
        object_files(ascii_lower(o), filter, listings) == object_files(o, filter, listings),
        query_files(seq![ascii_upper(o)], filter, listings) == query_files(seq![o], filter, listings),
        query_files(seq![ascii_lower(o)], filter, listings) == query_files(seq![o], filter, listings),
        lookup_dirs_spec(one_object_query(ascii_upper(o), filter)) == lookup_dirs_spec(
            one_object_query(o, filter),
        ),
        lookup_dirs_spec(one_object_query(ascii_lower(o), filter)) == lookup_dirs_spec(
            one_object_query(o, filter),
        ),
{
    let u = ascii_upper(o);
    lemma_case_absorb(o);
    lemma_object_files_lower(o, filter, listings);
    lemma_object_files_lower(u, filter, listings);
    lemma_object_address_lower(o);
    lemma_object_address_lower(u);
    lemma_candidate_types_lower(o);
    lemma_candidate_types_lower(u);
    lemma_query_files_one(o, filter, listings);
    lemma_query_files_one(u, filter, listings);
    lemma_query_files_one(ascii_lower(o), filter, listings);
    lemma_dirs_one(u, o, filter);
    lemma_dirs_one(ascii_lower(o), o, filter);
}

/// The view of a list of (type, name) pairs.
pub open spec fn pairs_view(v: Seq<(String, String)>) -> Seq<(Seq<char>, Seq<char>)> {
    v.map_values(|e: (String, String)| (e.0@, e.1@))
}

/// Whether an address is of the IPv6 family (`v6`) or the IPv4 family.
pub open spec fn in_family(a: Option<IpAddress>, v6: bool) -> bool {
    match a {
        Some(IpAddress::V4(_)) => !v6,
        Some(IpAddress::V6(_)) => v6,
        None => false,
    }
}

/// The directories to list for a query: the prefix types, passed by the
/// filter, of the address families that its objects name, and the telephony
/// directory when an object is a telephony number.
pub open spec fn lookup_dirs_spec(q: QueryView) -> Seq<Seq<char>> {
    let v4 = exists|i: int| 0 <= i < q.objects.len() && in_family(#[trigger] object_address(q.objects[i]), false);
    let v6 = exists|i: int| 0 <= i < q.objects.len() && in_family(#[trigger] object_address(q.objects[i]), true);
    let tel = exists|i: int| 0 <= i < q.objects.len() && #[trigger] is_telephony_number(q.objects[i]);
    let pick = |t: Seq<char>, b: bool| if b && type_allowed_spec(q.type_filter, t) { seq![t] } else { seq![] };
    pick("inetnum"@, v4) + pick("route"@, v4) + pick("inet6num"@, v6) + pick("route6"@, v6) + pick(
        "telephony"@,
        tel,
    )
}


/// The view of a list of prefix matches.
pub open spec fn matches_view(v: Seq<(u8, &str, String)>) -> Seq<(u8, Seq<char>, Seq<char>)> {
    v.map_values(|e: (u8, &str, String)| (e.0, e.1@, e.2@))
}

fn listing_for<'a>(listings: &'a [(String, Vec<String>)], t: &str) -> (r: Option<&'a Vec<String>>)
    ensures
        match r {
            Some(v) => strings_view(v@) == listing_of(listings_view(listings@), t@, 0),
            None => listing_of(listings_view(listings@), t@, 0) == Seq::<Seq<char>>::empty(),
        },
{
    let ghost lv = listings_view(listings@);
    let mut i: usize = 0;
    while i < listings.len()
        invariant
            i <= listings@.len(),
            lv == listings_view(listings@),
            listing_of(lv, t@, i as int) == listing_of(lv, t@, 0),
        decreases listings@.len() - i,
    {
        if str_eq(listings[i].0.as_str(), t) {
            return Some(&listings[i].1);
        }
        i = i + 1;
    }
    None
}

/// The prefixes among `names` that cover `addr`, tagged with type `t`.
fn matching_in(names: &[String], addr: IpAddress, t: &'static str, out: &mut Vec<(u8, &'static str, String)>)
    ensures
        matches_view(final(out)@) == matches_view(old(out)@) + tagged(
            t@,
            matching_names(strings_view(names@), addr),
        ),
{
    let ghost start = matches_view(out@);
    let mut k: usize = 0;
    proof {
        assert(strings_view(names@).take(0) =~= seq![]);
        assert(tagged(t@, matching_names(seq![], addr)) =~= seq![]);
        assert(start + seq![] =~= start);
    }
    while k < names.len()
        invariant
            k <= names@.len(),
            matches_view(out@) == start + tagged(
                t@,
                matching_names(strings_view(names@).take(k as int), addr),
            ),
        decreases names@.len() - k,
    {
        let ghost before = matches_view(out@);
        let ghost sv = strings_view(names@).take(k + 1);
        proof {
            assert(sv.drop_last() =~= strings_view(names@).take(k as int));
            assert(sv.last() == names@[k as int]@);
        }
        match RegistryCidr::parse_file_name(names[k].as_str()) {
            Some(c) => {
                if c.contains(addr) {
                    out.push((c.prefix(), t, names[k].clone()));
                    proof {
                        assert(matches_view(out@) =~= before.push((c@.1, t@, names@[k as int]@)));
                        assert(tagged(t@, matching_names(sv, addr)) =~= tagged(
                            t@,
                            matching_names(strings_view(names@).take(k as int), addr),
                        ).push((c@.1, t@, names@[k as int]@)));
                    }
                } else {
                    proof {
                        assert(matching_names(sv, addr) == matching_names(
                            strings_view(names@).take(k as int),
                            addr,
                        ));
                    }
                }
            },
            None => {
                proof {
                    assert(matching_names(sv, addr) == matching_names(
                        strings_view(names@).take(k as int),
                        addr,
                    ));
                }
            },
        }
        k = k + 1;
    }
    proof {
        assert(strings_view(names@).take(k as int) =~= strings_view(names@));
    }
}

/// The prefixes, of the types that the filter passes, that cover `addr`.
fn route_matches_exec(addr: IpAddress, filter: &[String], listings: &[(String, Vec<String>)]) -> (r: Vec<
    (u8, &'static str, String),
>)
    ensures
        matches_view(r@) == route_matches(
            addr,
            strings_view(filter@),
            listings_view(listings@),
        ),
{
    let (t1, t2) = route_types_exec(addr);
    let mut out: Vec<(u8, &'static str, String)> = Vec::new();
    proof {
        assert(matches_view(out@) =~= seq![]);
        assert(tagged(t1@, seq![]) =~= seq![]);
        assert(tagged(t2@, seq![]) =~= seq![]);
    }
    let ghost lv = listings_view(listings@);
    if type_allowed(filter, t1) {
        match listing_for(listings, t1) {
            Some(names) => matching_in(names.as_slice(), addr, t1, &mut out),
            None => {},
        }
    }
    let ghost mid = matches_view(out@);
    if type_allowed(filter, t2) {
        match listing_for(listings, t2) {
            Some(names) => matching_in(names.as_slice(), addr, t2, &mut out),
            None => {},
        }
    }
    proof {
        assert(matches_view(out@) =~= route_matches(addr, strings_view(filter@), lv));
    }
    out
}

/// Orders prefix matches longest first, keeping the order of equal lengths.
fn longest_first_exec(c: &[(u8, &'static str, String)]) -> (r: Vec<(String, String)>)
    ensures
        pairs_view(r@) == longest_first(matches_view(c@), 255),
{
    let ghost cv = matches_view(c@);
    let mut out: Vec<(String, String)> = Vec::new();
    let mut rem: u32 = 256;
    proof {
        assert(pairs_view(out@) =~= seq![]);
    }
    while rem > 0
        invariant
            rem <= 256,
            cv == matches_view(c@),
            longest_first(cv, 255) == pairs_view(out@) + longest_first(cv, rem - 1),
        decreases rem,
    {
        let p = rem - 1;
        let ghost base = pairs_view(out@);
        let mut k: usize = 0;
        while k < c.len()
            invariant
                k <= c@.len(),
                p == rem - 1,
                cv == matches_view(c@),
                pairs_view(out@) == base + with_prefix(cv.take(k as int), p as int),
            decreases c@.len() - k,
        {
            let ghost before = pairs_view(out@);
            proof {
                assert(cv.take(k + 1).drop_last() =~= cv.take(k as int));
            }
            if c[k].0 as u32 == p {
                out.push((c[k].1.to_owned(), c[k].2.clone()));
                proof {
                    assert(pairs_view(out@) =~= before.push((c@[k as int].1@, c@[k as int].2@)));
                }
            }
            k = k + 1;
        }
        proof {
            assert(cv.take(k as int) =~= cv);
            assert(longest_first(cv, p as int) == with_prefix(cv, p as int) + longest_first(cv, p - 1));
            assert(longest_first(cv, 255) =~= pairs_view(out@) + longest_first(cv, p - 1));
        }
        rem = p;
    }
    proof {
        assert(longest_first(cv, -1) =~= seq![]);
        assert(pairs_view(out@) + seq![] =~= pairs_view(out@));
    }
    out
}

/// Whether `names` holds `n`.
fn contains_name(names: &Vec<String>, n: &str) -> (r: bool)
    ensures
        r == strings_view(names@).contains(n@),
{
    let mut k: usize = 0;
    while k < names.len()
        invariant
            k <= names@.len(),
            forall|j: int| 0 <= j < k ==> strings_view(names@)[j] != n@,
        decreases names@.len() - k,
    {
        if str_eq(names[k].as_str(), n) {
            proof {
                assert(strings_view(names@)[k as int] == n@);
            }
            return true;
        }
        k = k + 1;
    }
    false
}

/// The longest of `names` that is not empty and begins `o`.
fn longest_listed_prefix_exec(names: &Vec<String>, o: &[char]) -> (r: Option<usize>)
    ensures
        match r {
            Some(i) => i < names@.len() && longest_listed_prefix(strings_view(names@), o@) == Some(
                names@[i as int]@,
            ),
            None => longest_listed_prefix(strings_view(names@), o@) is None,
        },
{
    let ghost nv = strings_view(names@);
    let mut best: Option<usize> = None;
    let mut best_len: usize = 0;
    let mut k: usize = 0;
    proof {
        assert(nv.take(0) =~= Seq::<Seq<char>>::empty());
    }
    while k < names.len()
        invariant
            k <= names@.len(),
            nv == strings_view(names@),
            match best {
                Some(i) => i < k && longest_listed_prefix(nv.take(k as int), o@) == Some(names@[i as int]@)
                    && best_len == names@[i as int]@.len(),
                None => longest_listed_prefix(nv.take(k as int), o@) is None,
            },
        decreases names@.len() - k,
    {
        proof {
            assert(nv.take(k + 1).drop_last() =~= nv.take(k as int));
            assert(nv.take(k + 1).last() == names@[k as int]@);
        }
        let n = chars_of(names[k].as_str());
        let begins = n.len() > 0 && crate::text::matches_at(o, 0, &n);
        proof {
            if n@.len() <= o@.len() {
                assert(o@.subrange(0, n@.len() as int) =~= o@.take(n@.len() as int));
            }
        }
        let longer = match best {
            Some(_) => n.len() > best_len,
            None => true,
        };
        if begins && longer {
            best = Some(k);
            best_len = n.len();
        }
        k = k + 1;
    }
    proof {
        assert(nv.take(k as int) =~= nv);
    }
    best
}

/// The file under which an object of type `t` is looked up.
fn filed_name_exec(t: &str, o: &str, listings: &[(String, Vec<String>)]) -> (r: String)
    ensures
        r@ == filed_name(t@, o@, listings_view(listings@)),
{
    let n = normalized_object_name(t, o);
    let name = string_of(&n);
    if !str_eq(t, "telephony") {
        return name;
    }
    match listing_for(listings, t) {
        None => {
            proof {
                assert(!Seq::<Seq<char>>::empty().contains(n@));
            }
            name
        },
        Some(names) => {
            if contains_name(names, name.as_str()) {
                name
            } else {
                match longest_listed_prefix_exec(names, &n) {
                    Some(i) => names[i].clone(),
                    None => name,
                }
            }
        },
    }
}

/// The registry files named by the types that an object may name.
fn named_files_exec(types: &[&'static str], filter: &[String], o: &str, listings: &[(String, Vec<String>)]) -> (r:
    Vec<(String, String)>)
    ensures
        pairs_view(r@) == named_files(
            strs_view(types@),
            strings_view(filter@),
            o@,
            listings_view(listings@),
        ),
{
    let mut out: Vec<(String, String)> = Vec::new();
    let mut k: usize = 0;
    proof {
        assert(pairs_view(out@) =~= seq![]);
        assert(strs_view(types@).take(0) =~= seq![]);
    }
    while k < types.len()
        invariant
            k <= types@.len(),
            pairs_view(out@) == named_files(
                strs_view(types@).take(k as int),
                strings_view(filter@),
                o@,
                listings_view(listings@),
            ),
        decreases types@.len() - k,
    {
        let ghost before = pairs_view(out@);
        let ghost tv = strs_view(types@).take(k + 1);
        proof {
            assert(tv.drop_last() =~= strs_view(types@).take(k as int));
            assert(tv.last() == types@[k as int]@);
        }
        if type_allowed(filter, types[k]) {
            let name = filed_name_exec(types[k], o, listings);
            out.push((types[k].to_owned(), name));
            proof {
                assert(pairs_view(out@) =~= before.push((types@[k as int]@, name@)));
            }
        }
        k = k + 1;
    }
    proof {
        assert(strs_view(types@).take(k as int) =~= strs_view(types@));
    }
    out
}

/// Appends the files of `f` whose names are plain names.
fn push_safe(out: &mut Vec<(String, String)>, f: Vec<(String, String)>)
    ensures
        pairs_view(final(out)@) == pairs_view(old(out)@) + safe_files(pairs_view(f@)),
{
    let ghost start = pairs_view(out@);
    let mut k: usize = 0;
    proof {
        assert(pairs_view(f@).take(0) =~= seq![]);
        assert(start + safe_files(seq![]) =~= start);
    }
    while k < f.len()
        invariant
            k <= f@.len(),
            pairs_view(out@) == start + safe_files(pairs_view(f@).take(k as int)),
        decreases f@.len() - k,
    {
        let ghost before = pairs_view(out@);
        let ghost fv = pairs_view(f@).take(k + 1);
        proof {
            assert(fv.drop_last() =~= pairs_view(f@).take(k as int));
        }
        let name = chars_of(f[k].1.as_str());
        if !unsafe_path_segment(&name) {
            out.push((f[k].0.clone(), f[k].1.clone()));
            proof {
                assert(pairs_view(out@) =~= before.push(fv.last()));
            }
        }
        k = k + 1;
    }
    proof {
        assert(pairs_view(f@).take(k as int) =~= pairs_view(f@));
    }
}

/// The address that an object names, if any.
fn object_address_exec(o: &str) -> (r: Option<IpAddress>)
    ensures
        r == object_address(o@),
{
    match RegistryCidr::parse_query(o) {
        Some(c) => Some(c.addr()),
        None => {
            let v = chars_of(o);
            parse_ip_chars(&v)
        },
    }
}

/// The files that answer one object of a query.
fn object_files_exec(o: &str, filter: &[String], listings: &[(String, Vec<String>)]) -> (r: Vec<
    (String, String),
>)
    ensures
        pairs_view(r@) == object_files(o@, strings_view(filter@), listings_view(listings@)),
{
    let mut all: Vec<(String, String)> = match object_address_exec(o) {
        Some(a) => {
            let m = route_matches_exec(a, filter, listings);
            longest_first_exec(&m)
        },
        None => Vec::new(),
    };
    proof {
        if object_address(o@) is None {
            assert(pairs_view(all@) =~= seq![]);
        }
    }
    let types = candidate_types(o);
    let named = named_files_exec(&types, filter, o, listings);
    let mut k: usize = 0;
    let ghost first = pairs_view(all@);
    while k < named.len()
        invariant
            k <= named@.len(),
            pairs_view(all@) == first + pairs_view(named@).take(k as int),
        decreases named@.len() - k,
    {
        let ghost before = all@;
        let a = named[k].0.clone();
        let b = named[k].1.clone();
        assert(a@ == named@[k as int].0@ && b@ == named@[k as int].1@);
        all.push((a, b));
        assert(pairs_view(all@) =~= pairs_view(before).push(pairs_view(named@)[k as int]));
        k = k + 1;
        proof {
            assert(pairs_view(named@).take(k as int) =~= pairs_view(named@).take(k - 1).push(
                pairs_view(named@)[k - 1],
            ));
        }
    }
    proof {
        assert(pairs_view(named@).take(k as int) =~= pairs_view(named@));
    }
    let mut out: Vec<(String, String)> = Vec::new();
    proof {
        assert(pairs_view(out@) =~= seq![]);
    }
    push_safe(&mut out, all);
    proof {
        assert(pairs_view(out@) =~= safe_files(pairs_view(all@)));
    }
    out
}


/// The files that answer the objects of a query, given the listings of the
/// directories that `lookup_directories` names (a directory missing from the
/// listings counts as empty).
pub fn files_to_read(query: &Query, listings: &[(String, Vec<String>)]) -> (r: Vec<(String, String)>)
    ensures
        pairs_view(r@) == query_files(query@.objects, query@.type_filter, listings_view(listings@)),
{
    let mut out: Vec<(String, String)> = Vec::new();
    let mut k: usize = 0;
    proof {
        assert(pairs_view(out@) =~= seq![]);
        assert(strings_view(query.objects@).take(0) =~= seq![]);
    }
    while k < query.objects.len()
        invariant
            k <= query.objects@.len(),
            pairs_view(out@) == query_files(
                strings_view(query.objects@).take(k as int),
                strings_view(query.type_filter@),
                listings_view(listings@),
            ),
        decreases query.objects@.len() - k,
    {
        let ghost before = pairs_view(out@);
        let f = object_files_exec(query.objects[k].as_str(), query.type_filter.as_slice(), listings);
        let mut j: usize = 0;
        while j < f.len()
            invariant
                j <= f@.len(),
                pairs_view(out@) == before + pairs_view(f@).take(j as int),
            decreases f@.len() - j,
        {
            let ghost b = out@;
            let x = f[j].0.clone();
            let y = f[j].1.clone();
            assert(x@ == f@[j as int].0@ && y@ == f@[j as int].1@);
            out.push((x, y));
            assert(pairs_view(out@) =~= pairs_view(b).push(pairs_view(f@)[j as int]));
            j = j + 1;
            proof {
                assert(pairs_view(f@).take(j as int) =~= pairs_view(f@).take(j - 1).push(
                    pairs_view(f@)[j - 1],
                ));
            }
        }
        proof {
            assert(pairs_view(f@).take(j as int) =~= pairs_view(f@));
            let ov = strings_view(query.objects@);
            assert(ov.take(k + 1).drop_last() =~= ov.take(k as int));
            assert(ov.take(k + 1).last() == query.objects@[k as int]@);
        }
        k = k + 1;
    }
    proof {
        assert(strings_view(query.objects@).take(k as int) =~= strings_view(query.objects@));
    }
    out
}

/// Whether some object names an address of the given family.
fn names_family(objects: &[String], v6: bool) -> (r: bool)
    ensures
        r == exists|i: int|
            0 <= i < objects@.len() && in_family(
                #[trigger] object_address(strings_view(objects@)[i]),
                v6,
            ),
{
    let mut k: usize = 0;
    while k < objects.len()
        invariant
            k <= objects@.len(),
            forall|i: int|
                0 <= i < k ==> !in_family(#[trigger] object_address(strings_view(objects@)[i]), v6),
        decreases objects@.len() - k,
    {
        let a = object_address_exec(objects[k].as_str());
        proof {
            assert(strings_view(objects@)[k as int] == objects@[k as int]@);
        }
        match a {
            Some(IpAddress::V4(_)) => {
                if !v6 {
                    return true;
                }
            },
            Some(IpAddress::V6(_)) => {
                if v6 {
                    return true;
                }
            },
            None => {},
        }
        k = k + 1;
    }
    false
}

/// Whether some object is a telephony number.
fn names_telephony(objects: &[String]) -> (r: bool)
    ensures
        r == exists|i: int| 0 <= i < objects@.len() && #[trigger] is_telephony_number(strings_view(objects@)[i]),
{
    let mut k: usize = 0;
    while k < objects.len()
        invariant
            k <= objects@.len(),
            forall|i: int| 0 <= i < k ==> !is_telephony_number(#[trigger] strings_view(objects@)[i]),
        decreases objects@.len() - k,
    {
        let v = chars_of(objects[k].as_str());
        let tel = v.len() > 1 && v[0] == '+' && crate::text::all_digits_in(&v, 1, v.len());
        proof {
            assert(strings_view(objects@)[k as int] == v@);
            if v@.len() >= 1 {
                assert(v@.subrange(1, v@.len() as int) =~= v@.skip(1));
            }
        }
        if tel {
            proof {
                assert(is_telephony_number(strings_view(objects@)[k as int]));
            }
            return true;
        }
        k = k + 1;
    }
    false
}

/// The directories to list for a query.
pub fn lookup_directories(query: &Query) -> (r: Vec<&'static str>)
    ensures
        strs_view(r@) == lookup_dirs_spec(query@),
{
    let v4 = names_family(query.objects.as_slice(), false);
    let v6 = names_family(query.objects.as_slice(), true);
    let mut out: Vec<&'static str> = Vec::new();
    if v4 && type_allowed(query.type_filter.as_slice(), "inetnum") {
        out.push("inetnum");
    }
    if v4 && type_allowed(query.type_filter.as_slice(), "route") {
        out.push("route");
    }
    if v6 && type_allowed(query.type_filter.as_slice(), "inet6num") {
        out.push("inet6num");
    }
    if v6 && type_allowed(query.type_filter.as_slice(), "route6") {
        out.push("route6");
    }
    let tel = names_telephony(query.objects.as_slice());
    if tel && type_allowed(query.type_filter.as_slice(), "telephony") {
        out.push("telephony");
    }
    proof {
        assert(strs_view(out@) =~= lookup_dirs_spec(query@));
    }
    out
}

/// The prefix objects that cover `addr`, longest first: the files to read
/// from the listings of the directories that `route_types` names.
pub fn ip_lookup_files(addr: IpAddress, listings: &[(String, Vec<String>)]) -> (r: Vec<(String, String)>)
    ensures
        pairs_view(r@) == safe_files(longest_first(route_matches(addr, seq![], listings_view(listings@)), 255)),
{
    let no_filter: Vec<String> = Vec::new();
    proof {
        assert(strings_view(no_filter@) =~= seq![]);
    }
    let m = route_matches_exec(addr, no_filter.as_slice(), listings);
    let sorted = longest_first_exec(&m);
    let mut out: Vec<(String, String)> = Vec::new();
    proof {
        assert(pairs_view(out@) =~= seq![]);
    }
    push_safe(&mut out, sorted);
    proof {
        assert(pairs_view(out@) =~= safe_files(pairs_view(sorted@)));
    }
    out
}

/// The directories that hold the prefix objects of an address's family.
pub fn prefix_directories(addr: IpAddress) -> (r: (&'static str, &'static str))
    ensures
        (r.0@, r.1@) == route_types(addr),
{
    route_types_exec(addr)
}

// ---------------------------------------------------------------------------
// Replies

/// The first lines of every reply.
pub open spec fn header() -> Seq<char> {
    "% This is the dn42 whois query service.\n\n"@
}

/// The reply to a query that needs no lookup, if it is one: a query that
/// cannot be read, a server information query, or a template query.
pub open spec fn immediate_reply(input: Seq<char>) -> Option<Seq<char>> {
    match parse_query_spec(input) {
        Err(_) => Some(header() + "% error: invalid query\n\n"@),
        Ok(q) => match q.server_info {
            Some(w) => Some(header() + server_info_spec(w)),
            None => match q.type_schema {
                Some(t) => Some(header() + "% template queries are unsupported for "@ + t + seq!['\n']),
                None => None,
            },
        },
    }
}

/// What a query line calls for.
pub enum QueryPlan {
    /// The reply, which needs no lookup.
    Reply(String),
    /// Object lookups for this query.
    Lookup(Query),
}

/// The reply section for one registry file.
pub open spec fn section(t: Seq<char>, n: Seq<char>, c: Seq<char>) -> Seq<char> {
    "% Information related to '"@ + t + seq!['/'] + n + "':\n"@ + c + (if c.len() > 0 && c.last()
        == '\n' {
        seq![]
    } else {
        seq!['\n']
    }) + seq!['\n']
}

/// The view of files and what reading them gave (`None`: missing or unreadable).
pub open spec fn reads_view(v: Seq<(String, String, Option<String>)>) -> Seq<
    (Seq<char>, Seq<char>, Option<Seq<char>>),
> {
    v.map_values(|e: (String, String, Option<String>)| (e.0@, e.1@, opt_view(e.2)))
}

/// The sections of the files that could be read, in order.
pub open spec fn sections(reads: Seq<(Seq<char>, Seq<char>, Option<Seq<char>>)>) -> Seq<char>
    decreases reads.len(),
{
    if reads.len() == 0 {
        seq![]
    } else {
        sections(reads.drop_last()) + match reads.last().2 {
            Some(c) => section(reads.last().0, reads.last().1, c),
            None => seq![],
        }
    }
}

/// Whether some file could be read.
pub open spec fn any_found(reads: Seq<(Seq<char>, Seq<char>, Option<Seq<char>>)>) -> bool {
    exists|i: int| 0 <= i < reads.len() && #[trigger] reads[i].2 is Some
}

/// The reply to a lookup: a section per file found, or `% 404` when none was.
pub open spec fn lookup_reply(reads: Seq<(Seq<char>, Seq<char>, Option<Seq<char>>)>) -> Seq<char> {
    header() + sections(reads) + (if any_found(reads) {
        seq![]
    } else {
        "% 404\n"@
    }) + seq!['\n']
}

/// The text that opens the section of a file that could be read: the line
/// `% Information related to 'T/N':`, then what the file held.
pub open spec fn found_text(t: Seq<char>, n: Seq<char>, c: Seq<char>) -> Seq<char> {
    "% Information related to '"@ + t + seq!['/'] + n + "':\n"@ + c
}

/// Whether `x` occurs in `s` at position `k`.
pub open spec fn occurs_at(s: Seq<char>, x: Seq<char>, k: int) -> bool {
    0 <= k && k + x.len() <= s.len() && s.subrange(k, k + x.len()) == x
}

proof fn lemma_sections_step(reads: Seq<(Seq<char>, Seq<char>, Option<Seq<char>>)>, i: int)
    requires
        0 <= i < reads.len(),
    ensures
        sections(reads.take(i + 1)) == sections(reads.take(i)) + match reads[i].2 {
            Some(c) => section(reads[i].0, reads[i].1, c),
            None => seq![],
        },
{
    assert(reads.take(i + 1).drop_last() =~= reads.take(i));
    assert(reads.take(i + 1).last() == reads[i]);
}

proof fn lemma_sections_prefix(reads: Seq<(Seq<char>, Seq<char>, Option<Seq<char>>)>, m: int, k: int)
    requires
        0 <= m <= k <= reads.len(),
    ensures
        sections(reads.take(m)).len() <= sections(reads.take(k)).len(),
        sections(reads.take(k)).subrange(0, sections(reads.take(m)).len() as int) == sections(reads.take(m)),
    decreases k - m,
{
    if m < k {
        lemma_sections_prefix(reads, m, k - 1);
        lemma_sections_step(reads, k - 1);
        let a = sections(reads.take(m));
        let b = sections(reads.take(k - 1));
        let full = sections(reads.take(k));
        assert(full.subrange(0, b.len() as int) =~= b);
        assert(full.subrange(0, a.len() as int) =~= b.subrange(0, a.len() as int));
    } else {
        assert(sections(reads.take(k)).subrange(0, sections(reads.take(m)).len() as int) =~= sections(
            reads.take(m),
        ));
    }
}

/// Where the text of the `i`-th file read stands in the reply: after the
/// header and the sections of the files before it.
pub open spec fn found_at(reads: Seq<(Seq<char>, Seq<char>, Option<Seq<char>>)>, i: int) -> int {
    (header().len() + sections(reads.take(i)).len()) as int
}

proof fn lemma_found_at(reads: Seq<(Seq<char>, Seq<char>, Option<Seq<char>>)>, i: int)
    requires
        0 <= i < reads.len(),
        reads[i].2 is Some,
    ensures
        occurs_at(lookup_reply(reads), found_text(reads[i].0, reads[i].1, reads[i].2->0), found_at(reads, i)),
        found_at(reads, i) + found_text(reads[i].0, reads[i].1, reads[i].2->0).len() <= header().len()
            + sections(reads.take(i + 1)).len(),
{
    let c = reads[i].2->0;
    let t = reads[i].0;
    let n = reads[i].1;
    let f = found_text(t, n, c);
    let sec = section(t, n, c);
    let g = sec.subrange(f.len() as int, sec.len() as int);
    assert(sec =~= f + g);
    lemma_sections_step(reads, i);
    lemma_sections_prefix(reads, i + 1, reads.len() as int);
    assert(reads.take(reads.len() as int) =~= reads);
    let all = sections(reads);
    let before = sections(reads.take(i));
    let upto = sections(reads.take(i + 1));
    let z = all.subrange(upto.len() as int, all.len() as int);
    assert(all =~= upto + z);
    assert(upto == before + sec);
    let tail = (if any_found(reads) {
        seq![]
    } else {
        "% 404\n"@
    }) + seq!['\n'];
    let reply = lookup_reply(reads);
    assert(reply =~= header() + all + tail);
    let a = header() + before;
    assert(reply =~= a + f + (g + z + tail));
    assert(reply.subrange(a.len() as int, (a.len() + f.len()) as int) =~= f);
}

/// A reply shows every file that could be read, in order: for each such
/// file the text `% Information related to 'T/N':` followed by what the
/// file held occurs in the reply, and for two such files the first one's
/// text comes first.
pub proof fn lemma_reply_shows_found_files(
    reads: Seq<(Seq<char>, Seq<char>, Option<Seq<char>>)>,
    i: int,
    j: int,
)
    requires
        0 <= i < j < reads.len(),
        reads[i].2 is Some,
        reads[j].2 is Some,
    ensures
        exists|ki: int, kj: int|
            #![trigger occurs_at(lookup_reply(reads), found_text(reads[i].0, reads[i].1, reads[i].2->0), ki),
                occurs_at(lookup_reply(reads), found_text(reads[j].0, reads[j].1, reads[j].2->0), kj)]
            ki < kj && occurs_at(lookup_reply(reads), found_text(reads[i].0, reads[i].1, reads[i].2->0), ki)
                && occurs_at(lookup_reply(reads), found_text(reads[j].0, reads[j].1, reads[j].2->0), kj),
{
    lemma_found_at(reads, i);
    lemma_found_at(reads, j);
    lemma_sections_prefix(reads, i + 1, j);
    reveal_strlit("% Information related to '");
    assert(found_text(reads[i].0, reads[i].1, reads[i].2->0).len() > 0);
    let ki = found_at(reads, i);
    let kj = found_at(reads, j);
    assert(ki < kj);
}

/// A reply shows every file that could be read: the text
/// `% Information related to 'T/N':` followed by what the file held occurs
/// in the reply.
pub proof fn lemma_reply_shows_found_file(reads: Seq<(Seq<char>, Seq<char>, Option<Seq<char>>)>, i: int)
    requires
        0 <= i < reads.len(),
        reads[i].2 is Some,
    ensures
        exists|k: int| #[trigger]
            occurs_at(lookup_reply(reads), found_text(reads[i].0, reads[i].1, reads[i].2->0), k),
{
    lemma_found_at(reads, i);
}

/// A lookup that could read no file is answered with the header and `% 404`
/// alone; one that could read some file has no `% 404` line after the
/// sections and ends with the blank line after them.
pub proof fn lemma_reply_not_found(reads: Seq<(Seq<char>, Seq<char>, Option<Seq<char>>)>)
    ensures
        (forall|i: int| 0 <= i < reads.len() ==> #[trigger] reads[i].2 is None) ==> lookup_reply(reads)
            == "% This is the dn42 whois query service.\n\n% 404\n\n"@,
        (exists|i: int| 0 <= i < reads.len() && #[trigger] reads[i].2 is Some) ==> lookup_reply(reads)
            == "% This is the dn42 whois query service.\n\n"@ + sections(reads) + "\n"@,
{
    reveal_strlit("% This is the dn42 whois query service.\n\n% 404\n\n");
    reveal_strlit("% This is the dn42 whois query service.\n\n");
    reveal_strlit("% 404\n");
    reveal_strlit("\n");
    if forall|i: int| 0 <= i < reads.len() ==> #[trigger] reads[i].2 is None {
        lemma_sections_none(reads);
        assert(!any_found(reads));
        assert(lookup_reply(reads) =~= "% This is the dn42 whois query service.\n\n% 404\n\n"@);
    } else {
        assert(lookup_reply(reads) =~= "% This is the dn42 whois query service.\n\n"@ + sections(reads)
            + "\n"@);
    }
}

proof fn lemma_sections_none(reads: Seq<(Seq<char>, Seq<char>, Option<Seq<char>>)>)
    requires
        forall|i: int| 0 <= i < reads.len() ==> #[trigger] reads[i].2 is None,
    ensures
        sections(reads) == Seq::<char>::empty(),
    decreases reads.len(),
{
    if reads.len() > 0 {
        let d = reads.drop_last();
        assert forall|i: int| 0 <= i < d.len() implies #[trigger] d[i].2 is None by {
            assert(d[i] == reads[i]);
        }
        lemma_sections_none(d);
        assert(reads.last() == reads[reads.len() - 1]);
        assert(sections(reads) =~= Seq::<char>::empty());
    }
}

/// The type and name of each file read.
pub open spec fn read_files(reads: Seq<(Seq<char>, Seq<char>, Option<Seq<char>>)>) -> Seq<(Seq<char>, Seq<char>)> {
    reads.map_values(|r: (Seq<char>, Seq<char>, Option<Seq<char>>)| (r.0, r.1))
}

/// Whether every section of `sections(reads)` names a type that `filter`
/// passes and a plain file name.
pub open spec fn sections_allowed(
    reads: Seq<(Seq<char>, Seq<char>, Option<Seq<char>>)>,
    filter: Seq<Seq<char>>,
) -> bool
    decreases reads.len(),
{
    if reads.len() == 0 {
        true
    } else {
        sections_allowed(reads.drop_last(), filter) && (reads.last().2 is Some ==> (type_allowed_spec(
            filter,
            reads.last().0,
        ) && !unsafe_path(reads.last().1)))
    }
}

/// A reply shows only what the query may read: when the files read are the
/// ones that `files_to_read` names, the reply is the header, then one section
/// per file found, each naming a type that the query's filter passes and a
/// plain name inside that type's directory, then `% 404` when none was found.
pub proof fn lemma_reply_sections(
    objects: Seq<Seq<char>>,
    filter: Seq<Seq<char>>,
    listings: Seq<(Seq<char>, Seq<Seq<char>>)>,
    reads: Seq<(Seq<char>, Seq<char>, Option<Seq<char>>)>,
)
    requires
        read_files(reads) == query_files(objects, filter, listings),
    ensures
        sections_allowed(reads, filter),
        forall|i: int|
            0 <= i < reads.len() ==> type_allowed_spec(filter, #[trigger] reads[i].0) && !unsafe_path(
                reads[i].1,
            ),
        lookup_reply(reads) == header() + sections(reads) + (if any_found(reads) {
            seq![]
        } else {
            "% 404\n"@
        }) + seq!['\n'],
{
    let f = query_files(objects, filter, listings);
    lemma_query_files_safe(objects, filter, listings);
    lemma_query_files_allowed(objects, filter, listings);
    assert forall|i: int| 0 <= i < reads.len() implies type_allowed_spec(filter, #[trigger] reads[i].0)
        && !unsafe_path(reads[i].1) by {
        assert(read_files(reads).len() == reads.len());
        assert(read_files(reads)[i] == (reads[i].0, reads[i].1));
        assert(f[i] == (reads[i].0, reads[i].1));
        assert(types_allowed(f, filter));
        assert(type_allowed_spec(filter, f[i].0));
        assert(!unsafe_path(f[i].1));
    }
    lemma_sections_allowed(reads, filter);
}

proof fn lemma_sections_allowed(reads: Seq<(Seq<char>, Seq<char>, Option<Seq<char>>)>, filter: Seq<Seq<char>>)
    requires
        forall|i: int|
            0 <= i < reads.len() ==> type_allowed_spec(filter, #[trigger] reads[i].0) && !unsafe_path(
                reads[i].1,
            ),
    ensures
        sections_allowed(reads, filter),
    decreases reads.len(),
{
    if reads.len() > 0 {
        let d = reads.drop_last();
        assert forall|i: int| 0 <= i < d.len() implies type_allowed_spec(filter, #[trigger] d[i].0)
            && !unsafe_path(d[i].1) by {
            assert(d[i] == reads[i]);
        }
        lemma_sections_allowed(d, filter);
        assert(reads.last() == reads[reads.len() - 1]);
    }
}

/// The files of a lookup with what reading each gave: the `i`-th file goes
/// with `contents[i]`, and a file past the end of `contents` counts as missing.
pub open spec fn paired_reads(
    files: Seq<(Seq<char>, Seq<char>)>,
    contents: Seq<Option<Seq<char>>>,
) -> Seq<(Seq<char>, Seq<char>, Option<Seq<char>>)> {
    Seq::new(
        files.len(),
        |i: int|
            (files[i].0, files[i].1, if i < contents.len() {
                contents[i]
            } else {
                None
            }),
    )
}

/// The view of what reading files gave.
pub open spec fn contents_view(v: Seq<Option<String>>) -> Seq<Option<Seq<char>>> {
    v.map_values(|c: Option<String>| opt_view(c))
}

/// The reply to the query line `input`, where `listings` is what listing the
/// directories of `lookup_directories` gave and `contents` is what reading
/// the files of `files_to_read` gave, file by file.
pub open spec fn query_reply(
    input: Seq<char>,
    listings: Seq<(Seq<char>, Seq<Seq<char>>)>,
    contents: Seq<Option<Seq<char>>>,
) -> Seq<char> {
    match immediate_reply(input) {
        Some(r) => r,
        None => match parse_query_spec(input) {
            Ok(q) => lookup_reply(paired_reads(query_files(q.objects, q.type_filter, listings), contents)),
            Err(_) => seq![],
        },
    }
}

/// The directories to list for the query line `input`.
pub open spec fn query_dirs(input: Seq<char>) -> Seq<Seq<char>> {
    match immediate_reply(input) {
        Some(_) => seq![],
        None => match parse_query_spec(input) {
            Ok(q) => lookup_dirs_spec(q),
            Err(_) => seq![],
        },
    }
}

/// No file outside the registry reaches a reply. The reply to a query line
/// is either a fixed answer that reads no file, or the header, then one
/// section `% Information related to 'T/N':` per file that could be read,
/// followed by exactly what reading that file gave, where `T` is a type that
/// the query's `-T` filter passes and `N` is a plain name (no root, `.` or
/// `..`), then `% 404` when no file was found; whatever the directories
/// listed and the files held.
pub proof fn lemma_query_reply_files(
    input: Seq<char>,
    listings: Seq<(Seq<char>, Seq<Seq<char>>)>,
    contents: Seq<Option<Seq<char>>>,
)
    ensures
        match immediate_reply(input) {
            Some(r) => query_reply(input, listings, contents) == r,
            None => match parse_query_spec(input) {
                Ok(q) => {
                    let reads = paired_reads(query_files(q.objects, q.type_filter, listings), contents);
                    &&& query_reply(input, listings, contents) == header() + sections(reads) + (if any_found(
                        reads,
                    ) {
                        seq![]
                    } else {
                        "% 404\n"@
                    }) + seq!['\n']
                    &&& forall|i: int|
                        0 <= i < reads.len() ==> type_allowed_spec(q.type_filter, #[trigger] reads[i].0)
                            && !unsafe_path(reads[i].1)
                    &&& forall|i: int|
                        0 <= i < reads.len() ==> #[trigger] reads[i].2 == (if i < contents.len() {
                            contents[i]
                        } else {
                            None
                        })
                },
                Err(_) => false,
            },
        },
{
    match immediate_reply(input) {
        Some(_) => {},
        None => {
            match parse_query_spec(input) {
                Ok(q) => {
                    let f = query_files(q.objects, q.type_filter, listings);
                    let reads = paired_reads(f, contents);
                    assert(read_files(reads) =~= f);
                    lemma_reply_sections(q.objects, q.type_filter, listings, reads);
                },
                Err(_) => {},
            }
        },
    }
}

/// Whether a text has no whitespace: at most one word of a query line.
pub open spec fn no_whitespace(s: Seq<char>) -> bool {
    forall|i: int| 0 <= i < s.len() ==> !is_ws(#[trigger] s[i])
}

proof fn lemma_skip_word_to_end(s: Seq<char>, i: int)
    requires
        no_whitespace(s),
        0 <= i <= s.len(),
    ensures
        skip_word(s, i, true, ' ') == s.len(),
    decreases s.len() - i,
{
    if i < s.len() {
        assert(!is_ws(s[i]));
        lemma_skip_word_to_end(s, i + 1);
    }
}

/// A text without whitespace is one word, or none when it is empty.
proof fn lemma_split_one_word(s: Seq<char>)
    requires
        no_whitespace(s),
    ensures
        split_whitespace(s) == (if s.len() == 0 {
            seq![]
        } else {
            seq![s]
        }),
{
    if s.len() > 0 {
        assert(!is_ws(s[0]));
        assert(skip_seps(s, 0, true, ' ') == 0);
        lemma_skip_word_to_end(s, 0);
        assert(skip_seps(s, s.len() as int, true, ' ') == s.len());
        assert(words_from(s, s.len() as int, true, ' ') =~= Seq::<Seq<char>>::empty());
        assert(s.subrange(0, s.len() as int) =~= s);
        assert(split_whitespace(s) =~= seq![s]);
    }
}

/// The query of a line without whitespace: no object, an option without its
/// value, or that one object.
proof fn lemma_one_word_query(s: Seq<char>)
    requires
        no_whitespace(s),
    ensures
        s.len() == 0 ==> immediate_reply(s) is None && parse_query_spec(s) == Ok::<QueryView, Seq<char>>(
            QueryView { server_info: None, type_filter: seq![], type_schema: None, objects: seq![] },
        ),
        s.len() > 0 && s[0] == '-' ==> immediate_reply(s) == Some(header() + "% error: invalid query\n\n"@),
        s.len() > 0 && s[0] != '-' ==> immediate_reply(s) is None && parse_query_spec(s) == Ok::<
            QueryView,
            Seq<char>,
        >(one_object_query(s, seq![])),
{
    lemma_split_one_word(s);
    let args = split_whitespace(s);
    let init = QueryView { server_info: None, type_filter: seq![], type_schema: None, objects: seq![] };
    if s.len() == 0 {
        assert(args.skip(0) =~= Seq::<Seq<char>>::empty());
    } else if s[0] == '-' {
        assert(args[0] == s);
    } else {
        assert(args[0] == s);
        assert(args.skip(0) =~= seq![s]);
    }
}

/// Case changes keep a text free of whitespace, and keep its first
/// character a `-` or not.
proof fn lemma_case_keeps_word(s: Seq<char>)
    requires
        no_whitespace(s),
    ensures
        no_whitespace(ascii_upper(s)),
        no_whitespace(ascii_lower(s)),
        ascii_upper(s).len() == s.len(),
        ascii_lower(s).len() == s.len(),
        s.len() > 0 ==> ((ascii_upper(s)[0] == '-') == (s[0] == '-')),
        s.len() > 0 ==> ((ascii_lower(s)[0] == '-') == (s[0] == '-')),
{
    assert forall|i: int| 0 <= i < s.len() implies !is_ws(#[trigger] ascii_upper(s)[i]) by {
        assert(!is_ws(s[i]));
        assert(ascii_upper(s)[i] == upper_char(s[i]));
    }
    assert forall|i: int| 0 <= i < s.len() implies !is_ws(#[trigger] ascii_lower(s)[i]) by {
        assert(!is_ws(s[i]));
        assert(ascii_lower(s)[i] == lower_char(s[i]));
    }
    if s.len() > 0 {
        assert(ascii_upper(s)[0] == upper_char(s[0]));
        assert(ascii_lower(s)[0] == lower_char(s[0]));
    }
}

/// Letter case does not change the reply to a query line of one word (a line
/// without whitespace): in ASCII upper or lower case it lists the same
/// directories and, given the same listings and file contents, gets the same
/// reply.
pub proof fn lemma_query_reply_case(
    o: Seq<char>,
    listings: Seq<(Seq<char>, Seq<Seq<char>>)>,
    contents: Seq<Option<Seq<char>>>,
)
    requires
        no_whitespace(o),
    ensures
        query_dirs(ascii_upper(o)) == query_dirs(o),
        query_dirs(ascii_lower(o)) == query_dirs(o),
        query_reply(ascii_upper(o), listings, contents) == query_reply(o, listings, contents),
        query_reply(ascii_lower(o), listings, contents) == query_reply(o, listings, contents),
{
    let u = ascii_upper(o);
    let l = ascii_lower(o);
    lemma_case_keeps_word(o);
    lemma_one_word_query(o);
    lemma_one_word_query(u);
    lemma_one_word_query(l);
    if o.len() == 0 {
        assert(u =~= o);
        assert(l =~= o);
    } else if o[0] != '-' {
        lemma_object_files_case(o, seq![], listings);
    }
}

/// A registry object as read from its file.
#[derive(Debug, Clone)]
pub struct ObjectRef {
    pub object_type: String,
    pub object_name: String,
    pub raw_text: String,
    pub rpsl: RpslObject,
}

impl ObjectRef {
    /// The object read from the file `object_type/object_name`.
    pub fn new(object_type: &str, object_name: &str, raw_text: String) -> (r: Self)
        ensures
            r.object_type@ == object_type@,
            r.object_name@ == object_name@,
            r.raw_text@ == raw_text@,
            r.rpsl@ == rpsl_fields(raw_text@),
    {
        let rpsl = RpslObject::parse(raw_text.as_str());
        ObjectRef {
            object_type: String::from_str(object_type),
            object_name: String::from_str(object_name),
            raw_text,
            rpsl,
        }
    }
}

/// A path to a directory on the host.
#[verifier::external_type_specification]
#[verifier::external_body]
pub struct ExPathBuf(std::path::PathBuf);

/// `Clone` for `PathBuf`: a copy of the path. The derived `Clone` of the
/// types that hold a path calls it.
pub assume_specification[ <std::path::PathBuf as Clone>::clone ](p: &std::path::PathBuf) -> (r:
    std::path::PathBuf)
    ensures
        r == *p,
;

/// The registry: the `data/` directory of a registry checkout.
#[derive(Debug, Clone)]
pub struct Registry {
    data_path: std::path::PathBuf,
}

impl Registry {
    /// The directory that holds the registry's object directories.
    pub closed spec fn path(&self) -> std::path::PathBuf {
        self.data_path
    }

    /// The registry whose object directories are under `data_path`.
    pub fn new(data_path: std::path::PathBuf) -> (r: Self)
        ensures
            r.path() == data_path,
    {
        Registry { data_path }
    }

    /// The directory that holds the registry's object directories.
    pub fn data_path(&self) -> (r: &std::path::PathBuf)
        ensures
            *r == self.path(),
    {
        &self.data_path
    }

    /// Reads a query line and says whether it needs object lookups.
    pub fn plan_query(input: &str) -> (r: QueryPlan)
        ensures
            match r {
                QueryPlan::Reply(t) => immediate_reply(input@) == Some(t@),
                QueryPlan::Lookup(q) => immediate_reply(input@) is None && parse_query_spec(input@)
                    == Ok::<QueryView, Seq<char>>(q@),
            },
    {
        let query = match Query::parse(input) {
            Ok(q) => q,
            Err(_) => {
                let mut out: Vec<char> = Vec::new();
                push_str(&mut out, "% This is the dn42 whois query service.\n\n");
                push_str(&mut out, "% error: invalid query\n\n");
                return QueryPlan::Reply(string_of(&out));
            },
        };
        match &query.server_info {
            Some(w) => {
                let mut out: Vec<char> = Vec::new();
                push_str(&mut out, "% This is the dn42 whois query service.\n\n");
                let info = server_info(w.as_str());
                push_str(&mut out, info.as_str());
                return QueryPlan::Reply(string_of(&out));
            },
            None => {},
        }
        match &query.type_schema {
            Some(t) => {
                let mut out: Vec<char> = Vec::new();
                push_str(&mut out, "% This is the dn42 whois query service.\n\n");
                push_str(&mut out, "% template queries are unsupported for ");
                push_str(&mut out, t.as_str());
                out.push('\n');
                return QueryPlan::Reply(string_of(&out));
            },
            None => {},
        }
        QueryPlan::Lookup(query)
    }

    /// The reply to the query line `input`, given what listing the
    /// directories of `lookup_directories` gave and what reading the files
    /// of `files_to_read` gave, file by file.
    pub fn answer_query(
        input: &str,
        listings: &[(String, Vec<String>)],
        contents: &[Option<String>],
    ) -> (r: String)
        ensures
            r@ == query_reply(input@, listings_view(listings@), contents_view(contents@)),
    {
        match Self::plan_query(input) {
            QueryPlan::Reply(t) => t,
            QueryPlan::Lookup(q) => Self::render_lookup(&q, listings, contents),
        }
    }

    /// The reply to the lookups of a query: the files that `files_to_read`
    /// names for the query and the directory listings, each with what
    /// reading it gave (`contents[i]` for the `i`-th file; a file past the
    /// end of `contents` counts as missing).
    pub fn render_lookup(
        query: &Query,
        listings: &[(String, Vec<String>)],
        contents: &[Option<String>],
    ) -> (r: String)
        ensures
            r@ == lookup_reply(
                paired_reads(
                    query_files(query@.objects, query@.type_filter, listings_view(listings@)),
                    contents_view(contents@),
                ),
            ),
    {
        let files = files_to_read(query, listings);
        let ghost fv = pairs_view(files@);
        let ghost cv = contents_view(contents@);
        let mut reads: Vec<(String, String, Option<String>)> = Vec::new();
        let mut k: usize = 0;
        proof {
            assert(reads_view(reads@) =~= paired_reads(fv, cv).take(0));
        }
        while k < files.len()
            invariant
                k <= files@.len(),
                fv == pairs_view(files@),
                cv == contents_view(contents@),
                reads_view(reads@) == paired_reads(fv, cv).take(k as int),
            decreases files@.len() - k,
        {
            let c: Option<String> = if k < contents.len() {
                match &contents[k] {
                    Some(t) => Some(t.clone()),
                    None => None,
                }
            } else {
                None
            };
            proof {
                assert(opt_view(c) == (if k < cv.len() {
                    cv[k as int]
                } else {
                    None
                }));
            }
            let t = files[k].0.clone();
            let n = files[k].1.clone();
            let ghost before = reads@;
            reads.push((t, n, c));
            proof {
                assert(fv[k as int] == (t@, n@));
                assert(reads@ == before.push((t, n, c)));
                assert(reads_view(reads@) =~= reads_view(before).push((t@, n@, opt_view(c))));
                assert(reads_view(reads@) =~= paired_reads(fv, cv).take(k + 1));
            }
            k = k + 1;
        }
        proof {
            assert(paired_reads(fv, cv).take(k as int) =~= paired_reads(fv, cv));
        }
        Self::render_response(&reads)
    }

    /// The reply to a lookup, from the files chosen by `files_to_read` and
    /// what reading each gave.
    pub fn render_response(reads: &[(String, String, Option<String>)]) -> (r: String)
        ensures
            r@ == lookup_reply(reads_view(reads@)),
    {
        let ghost rv = reads_view(reads@);
        let mut out: Vec<char> = Vec::new();
        push_str(&mut out, "% This is the dn42 whois query service.\n\n");
        let ghost start = out@;
        let mut found = false;
        let mut k: usize = 0;
        proof {
            assert(rv.take(0) =~= seq![]);
            assert(start + sections(seq![]) =~= start);
        }
        while k < reads.len()
            invariant
                k <= reads@.len(),
                rv == reads_view(reads@),
                start == header(),
                out@ == start + sections(rv.take(k as int)),
                found == any_found(rv.take(k as int)),
            decreases reads@.len() - k,
        {
            let ghost before = out@;
            proof {
                assert(rv.take(k + 1).drop_last() =~= rv.take(k as int));
                assert(rv.take(k + 1).last() == rv[k as int]);
            }
            match &reads[k].2 {
                Some(c) => {
                    push_str(&mut out, "% Information related to '");
                    push_str(&mut out, reads[k].0.as_str());
                    out.push('/');
                    push_str(&mut out, reads[k].1.as_str());
                    push_str(&mut out, "':\n");
                    let cv = chars_of(c.as_str());
                    push_chars(&mut out, &cv);
                    if !(cv.len() > 0 && cv[cv.len() - 1] == '\n') {
                        out.push('\n');
                    }
                    out.push('\n');
                    proof {
                        assert(out@ =~= before + section(rv[k as int].0, rv[k as int].1, cv@));
                        assert(rv.take(k + 1)[k as int].2 is Some);
                    }
                    found = true;
                },
                None => {
                    proof {
                        assert(out@ =~= before + seq![]);
                        if any_found(rv.take(k + 1)) {
                            let i = choose|i: int| 0 <= i < k + 1 && #[trigger] rv.take(k + 1)[i].2 is Some;
                            assert(rv.take(k as int)[i].2 is Some);
                        }
                    }
                },
            }
            k = k + 1;
        }
        proof {
            assert(rv.take(k as int) =~= rv);
        }
        if !found {
            push_str(&mut out, "% 404\n");
        }
        out.push('\n');
        proof {
            assert(out@ =~= lookup_reply(rv));
        }
        string_of(&out)
    }
}

} // verus!
