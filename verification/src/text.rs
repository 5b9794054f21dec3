//! Character-level helpers shared by the parsers of this crate.
//!
//! Text is modelled by its view, a `Seq<char>`. The spec functions here say
//! what the std string methods that the protocol relies on compute, and the
//! executable functions compute the same on `Vec<char>` buffers.
use vstd::prelude::*;

verus! {

/// Unicode `White_Space`, the property that `char::is_whitespace` tests.
pub open spec fn is_ws(c: char) -> bool {
    ||| ('\u{9}' <= c && c <= '\u{d}')
    ||| c == ' '
    ||| c == '\u{85}'
    ||| c == '\u{a0}'
    ||| c == '\u{1680}'
    ||| ('\u{2000}' <= c && c <= '\u{200a}')
    ||| c == '\u{2028}'
    ||| c == '\u{2029}'
    ||| c == '\u{202f}'
    ||| c == '\u{205f}'
    ||| c == '\u{3000}'
}

pub fn char_is_ws(c: char) -> (b: bool)
    ensures
        b == is_ws(c),
{
    ('\u{9}' <= c && c <= '\u{d}') || c == ' ' || c == '\u{85}' || c == '\u{a0}' || c
        == '\u{1680}' || ('\u{2000}' <= c && c <= '\u{200a}') || c == '\u{2028}' || c
        == '\u{2029}' || c == '\u{202f}' || c == '\u{205f}' || c == '\u{3000}'
}

/// The characters of a string, in order.
pub fn chars_of(s: &str) -> (v: Vec<char>)
    ensures
        v@ == s@,
{
    let mut v: Vec<char> = Vec::new();
    for c in it: s.chars()
        invariant
            v@ == it.seq().take(it.index() as int),
    {
        v.push(c);
    }
    v
}


/// The string made of the given characters (`String: FromIterator<&char>`).
#[verifier::external_body]
pub(crate) fn string_of(v: &[char]) -> (s: String)
    ensures
        s@ == v@,
{
    v.iter().collect()
}

/// Index of the first character at or after `i` that is not whitespace, or
/// the length when there is none.
pub open spec fn skip_ws_from(s: Seq<char>, i: int) -> int
    decreases s.len() - i,
{
    if i >= s.len() {
        s.len() as int
    } else if is_ws(s[i]) {
        skip_ws_from(s, i + 1)
    } else {
        i
    }
}

/// The largest `k <= j` such that `s[k - 1]` is not whitespace, or 0.
pub open spec fn back_ws_from(s: Seq<char>, j: int) -> int
    decreases j,
{
    if j <= 0 {
        0
    } else if is_ws(s[j - 1]) {
        back_ws_from(s, j - 1)
    } else {
        j
    }
}

/// `str::trim_start`.
pub open spec fn trim_start(s: Seq<char>) -> Seq<char> {
    s.skip(skip_ws_from(s, 0))
}

/// `str::trim_end`.
pub open spec fn trim_end(s: Seq<char>) -> Seq<char> {
    s.take(back_ws_from(s, s.len() as int))
}

/// `str::trim`.
pub open spec fn trim(s: Seq<char>) -> Seq<char> {
    trim_end(trim_start(s))
}

pub proof fn lemma_skip_ws_from(s: Seq<char>, i: int)
    requires
        0 <= i <= s.len(),
    ensures
        i <= skip_ws_from(s, i) <= s.len(),
        forall|k: int| i <= k < skip_ws_from(s, i) ==> is_ws(#[trigger] s[k]),
        skip_ws_from(s, i) < s.len() ==> !is_ws(s[skip_ws_from(s, i)]),
    decreases s.len() - i,
{
    if i < s.len() && is_ws(s[i]) {
        lemma_skip_ws_from(s, i + 1);
    }
}

pub proof fn lemma_back_ws_from(s: Seq<char>, j: int)
    requires
        0 <= j <= s.len(),
    ensures
        0 <= back_ws_from(s, j) <= j,
        forall|k: int| back_ws_from(s, j) <= k < j ==> is_ws(#[trigger] s[k]),
        back_ws_from(s, j) > 0 ==> !is_ws(s[back_ws_from(s, j) - 1]),
    decreases j,
{
    if j > 0 && is_ws(s[j - 1]) {
        lemma_back_ws_from(s, j - 1);
    }
}

/// Start of the trimmed part of `v`.
pub fn skip_ws(v: &[char], i: usize) -> (r: usize)
    requires
        i <= v@.len(),
    ensures
        r == skip_ws_from(v@, i as int),
{
    let mut k = i;
    while k < v.len() && char_is_ws(v[k])
        invariant
            i <= k <= v@.len(),
            skip_ws_from(v@, k as int) == skip_ws_from(v@, i as int),
        decreases v@.len() - k,
    {
        k = k + 1;
    }
    k
}

/// End of the trimmed part of `v[..j]`.
pub fn back_ws(v: &[char], j: usize) -> (r: usize)
    requires
        j <= v@.len(),
    ensures
        r == back_ws_from(v@, j as int),
{
    let mut k = j;
    while k > 0 && char_is_ws(v[k - 1])
        invariant
            k <= j <= v@.len(),
            back_ws_from(v@, k as int) == back_ws_from(v@, j as int),
        decreases k,
    {
        k = k - 1;
    }
    k
}

/// The characters of `v[from..to]`.
pub fn slice_vec(v: &[char], from: usize, to: usize) -> (r: Vec<char>)
    requires
        from <= to <= v@.len(),
    ensures
        r@ == v@.subrange(from as int, to as int),
{
    let mut r: Vec<char> = Vec::new();
    let mut k = from;
    while k < to
        invariant
            from <= k <= to <= v@.len(),
            r@ == v@.subrange(from as int, k as int),
        decreases to - k,
    {
        r.push(v[k]);
        k = k + 1;
    }
    r
}

/// `str::trim` on a character buffer.
pub fn trim_vec(v: &[char]) -> (r: Vec<char>)
    ensures
        r@ == trim(v@),
{
    let a = skip_ws(v, 0);
    proof {
        lemma_skip_ws_from(v@, 0);
    }
    let t = slice_vec(v, a, v.len());
    let b = back_ws(&t, t.len());
    proof {
        lemma_back_ws_from(t@, t@.len() as int);
    }
    slice_vec(&t, 0, b)
}

/// Number of bytes in the UTF-8 encoding of `c`.
pub open spec fn char_width(c: char) -> nat {
    if (c as u32) < 0x80 {
        1
    } else if (c as u32) < 0x800 {
        2
    } else if (c as u32) < 0x10000 {
        3
    } else {
        4
    }
}

pub fn char_width_exec(c: char) -> (w: usize)
    ensures
        w == char_width(c),
{
    let u = c as u32;
    if u < 0x80 {
        1
    } else if u < 0x800 {
        2
    } else if u < 0x10000 {
        3
    } else {
        4
    }
}

/// Number of bytes in the UTF-8 encoding of `s` (`str::len`).
pub open spec fn utf8_len(s: Seq<char>) -> nat
    decreases s.len(),
{
    if s.len() == 0 {
        0
    } else {
        utf8_len(s.drop_last()) + char_width(s.last())
    }
}


/// `char::to_ascii_uppercase`.
pub open spec fn upper_char(c: char) -> char {
    if 'a' <= c && c <= 'z' {
        ((c as u8) - 32) as char
    } else {
        c
    }
}

/// `char::to_ascii_lowercase`.
pub open spec fn lower_char(c: char) -> char {
    if 'A' <= c && c <= 'Z' {
        ((c as u8) + 32) as char
    } else {
        c
    }
}

/// `str::to_ascii_uppercase`.
pub open spec fn ascii_upper(s: Seq<char>) -> Seq<char> {
    s.map_values(|c: char| upper_char(c))
}

/// `str::to_ascii_lowercase`.
pub open spec fn ascii_lower(s: Seq<char>) -> Seq<char> {
    s.map_values(|c: char| lower_char(c))
}

/// Case changes of a text, one over another: the outer one decides.
pub proof fn lemma_case_absorb(s: Seq<char>)
    ensures
        ascii_upper(ascii_lower(s)) == ascii_upper(s),
        ascii_lower(ascii_lower(s)) == ascii_lower(s),
        ascii_lower(ascii_upper(s)) == ascii_lower(s),
        ascii_upper(ascii_upper(s)) == ascii_upper(s),
{
    assert(ascii_upper(ascii_lower(s)) =~= ascii_upper(s));
    assert(ascii_lower(ascii_lower(s)) =~= ascii_lower(s));
    assert(ascii_lower(ascii_upper(s)) =~= ascii_lower(s));
    assert(ascii_upper(ascii_upper(s)) =~= ascii_upper(s));
}

/// Lower case keeps digits, and what is a digit.
pub proof fn lemma_all_digits_lower(s: Seq<char>)
    ensures
        all_digits(ascii_lower(s)) == all_digits(s),
        value_of(ascii_lower(s), 10) == value_of(s, 10),
        value_of(ascii_lower(s), 16) == value_of(s, 16),
    decreases s.len(),
{
    if s.len() > 0 {
        lemma_all_digits_lower(s.drop_last());
        assert(ascii_lower(s).drop_last() =~= ascii_lower(s.drop_last()));
        assert(ascii_lower(s).last() == lower_char(s.last()));
        if all_digits(s) {
            assert forall|k: int| 0 <= k < s.len() implies is_digit(#[trigger] ascii_lower(s)[k]) by {
                assert(is_digit(s[k]));
            }
        }
        if all_digits(ascii_lower(s)) {
            assert forall|k: int| 0 <= k < s.len() implies is_digit(#[trigger] s[k]) by {
                assert(is_digit(ascii_lower(s)[k]));
            }
        }
    }
}

/// Lower case commutes with taking and dropping.
pub proof fn lemma_lower_slices(s: Seq<char>, i: int, j: int)
    requires
        0 <= i <= j <= s.len(),
    ensures
        ascii_lower(s).subrange(i, j) == ascii_lower(s.subrange(i, j)),
        ascii_lower(s).take(i) == ascii_lower(s.take(i)),
        ascii_lower(s).skip(i) == ascii_lower(s.skip(i)),
{
    assert(ascii_lower(s).subrange(i, j) =~= ascii_lower(s.subrange(i, j)));
    assert(ascii_lower(s).take(i) =~= ascii_lower(s.take(i)));
    assert(ascii_lower(s).skip(i) =~= ascii_lower(s.skip(i)));
}

/// The first `c` is where it was, for a `c` that no case change makes.
pub proof fn lemma_find_from_lower(s: Seq<char>, c: char, i: int)
    requires
        !('A' <= c && c <= 'Z') && !('a' <= c && c <= 'z'),
        0 <= i <= s.len(),
    ensures
        find_from(ascii_lower(s), c, i) == find_from(s, c, i),
    decreases s.len() - i,
{
    if i < s.len() {
        assert(ascii_lower(s)[i] == lower_char(s[i]));
        assert((lower_char(s[i]) == c) == (s[i] == c));
        lemma_find_from_lower(s, c, i + 1);
    }
}

pub fn upper_char_exec(c: char) -> (r: char)
    ensures
        r == upper_char(c),
{
    if 'a' <= c && c <= 'z' {
        ((c as u8) - 32) as char
    } else {
        c
    }
}

pub fn lower_char_exec(c: char) -> (r: char)
    ensures
        r == lower_char(c),
{
    if 'A' <= c && c <= 'Z' {
        ((c as u8) + 32) as char
    } else {
        c
    }
}

pub fn upper_vec(v: &[char]) -> (r: Vec<char>)
    ensures
        r@ == ascii_upper(v@),
{
    let mut r: Vec<char> = Vec::new();
    let mut k: usize = 0;
    while k < v.len()
        invariant
            k <= v@.len(),
            r@ == ascii_upper(v@.take(k as int)),
        decreases v@.len() - k,
    {
        r.push(upper_char_exec(v[k]));
        k = k + 1;
        proof {
            assert(ascii_upper(v@.take(k as int)) =~= ascii_upper(v@.take(k - 1)).push(
                upper_char(v@[k - 1]),
            ));
        }
    }
    proof {
        assert(v@.take(k as int) =~= v@);
    }
    r
}

pub fn lower_vec(v: &[char]) -> (r: Vec<char>)
    ensures
        r@ == ascii_lower(v@),
{
    let mut r: Vec<char> = Vec::new();
    let mut k: usize = 0;
    while k < v.len()
        invariant
            k <= v@.len(),
            r@ == ascii_lower(v@.take(k as int)),
        decreases v@.len() - k,
    {
        r.push(lower_char_exec(v[k]));
        k = k + 1;
        proof {
            assert(ascii_lower(v@.take(k as int)) =~= ascii_lower(v@.take(k - 1)).push(
                lower_char(v@[k - 1]),
            ));
        }
    }
    proof {
        assert(v@.take(k as int) =~= v@);
    }
    r
}

/// `str::starts_with` with a string pattern.
pub open spec fn starts_with(s: Seq<char>, p: Seq<char>) -> bool {
    p.len() <= s.len() && s.take(p.len() as int) == p
}

/// `str::ends_with` with a string pattern.
pub open spec fn ends_with(s: Seq<char>, p: Seq<char>) -> bool {
    p.len() <= s.len() && s.skip(s.len() - p.len()) == p
}

/// Whether `v[at..]` begins with `p`.
pub fn matches_at(v: &[char], at: usize, p: &[char]) -> (b: bool)
    requires
        at <= v@.len(),
    ensures
        b == (at + p@.len() <= v@.len() && v@.subrange(at as int, at + p@.len()) == p@),
{
    if p.len() > v.len() - at {
        return false;
    }
    let mut k: usize = 0;
    while k < p.len()
        invariant
            k <= p@.len(),
            at + p@.len() <= v@.len(),
            v@.len() == v.len(),
            forall|j: int| 0 <= j < k ==> v@[at + j] == p@[j],
        decreases p@.len() - k,
    {
        if v[at + k] != p[k] {
            proof {
                assert(v@.subrange(at as int, at + p@.len())[k as int] != p@[k as int]);
            }
            return false;
        }
        k = k + 1;
    }
    proof {
        assert(v@.subrange(at as int, at + p@.len()) =~= p@);
    }
    true
}

pub fn starts_with_str(v: &[char], p: &str) -> (b: bool)
    ensures
        b == starts_with(v@, p@),
{
    let pv = chars_of(p);
    let b = matches_at(v, 0, &pv);
    proof {
        if pv@.len() <= v@.len() {
            assert(v@.subrange(0, pv@.len() as int) =~= v@.take(pv@.len() as int));
        }
    }
    b
}

pub fn ends_with_str(v: &[char], p: &str) -> (b: bool)
    ensures
        b == ends_with(v@, p@),
{
    let pv = chars_of(p);
    if pv.len() > v.len() {
        return false;
    }
    let b = matches_at(v, v.len() - pv.len(), &pv);
    proof {
        assert(v@.subrange(v@.len() - pv@.len(), v@.len() as int) =~= v@.skip(
            v@.len() - pv@.len(),
        ));
    }
    b
}

/// `char::is_ascii_digit`.
pub open spec fn is_digit(c: char) -> bool {
    '0' <= c && c <= '9'
}

/// Every character of `s` is an ASCII digit.
pub open spec fn all_digits(s: Seq<char>) -> bool {
    forall|k: int| 0 <= k < s.len() ==> is_digit(#[trigger] s[k])
}

/// Whether `v[from..to]` holds ASCII digits only.
pub fn all_digits_in(v: &[char], from: usize, to: usize) -> (b: bool)
    requires
        from <= to <= v@.len(),
    ensures
        b == all_digits(v@.subrange(from as int, to as int)),
{
    let mut k = from;
    while k < to
        invariant
            from <= k <= to <= v@.len(),
            forall|j: int| from <= j < k ==> is_digit(#[trigger] v@[j]),
        decreases to - k,
    {
        if !('0' <= v[k] && v[k] <= '9') {
            proof {
                assert(!is_digit(v@.subrange(from as int, to as int)[k - from]));
            }
            return false;
        }
        k = k + 1;
    }
    proof {
        assert forall|j: int| 0 <= j < to - from implies is_digit(
            #[trigger] v@.subrange(from as int, to as int)[j],
        ) by {
            assert(v@.subrange(from as int, to as int)[j] == v@[from + j]);
        }
    }
    true
}

/// Index of the first `c` at or after `i`, or the length.
pub open spec fn find_from(s: Seq<char>, c: char, i: int) -> int
    decreases s.len() - i,
{
    if i >= s.len() {
        s.len() as int
    } else if s[i] == c {
        i
    } else {
        find_from(s, c, i + 1)
    }
}

pub proof fn lemma_find_from(s: Seq<char>, c: char, i: int)
    requires
        0 <= i <= s.len(),
    ensures
        i <= find_from(s, c, i) <= s.len(),
        forall|k: int| i <= k < find_from(s, c, i) ==> #[trigger] s[k] != c,
        find_from(s, c, i) < s.len() ==> s[find_from(s, c, i)] == c,
    decreases s.len() - i,
{
    if i < s.len() && s[i] != c {
        lemma_find_from(s, c, i + 1);
    }
}

pub fn find_char(v: &[char], c: char, i: usize) -> (r: usize)
    requires
        i <= v@.len(),
    ensures
        r == find_from(v@, c, i as int),
        i <= r <= v@.len(),
{
    let mut k = i;
    while k < v.len() && v[k] != c
        invariant
            i <= k <= v@.len(),
            find_from(v@, c, k as int) == find_from(v@, c, i as int),
        decreases v@.len() - k,
    {
        k = k + 1;
    }
    k
}


/// `==` on string slices.
pub fn str_eq(a: &str, b: &str) -> (r: bool)
    ensures
        r == (a@ == b@),
{
    let av = chars_of(a);
    let bv = chars_of(b);
    let r = av.len() == bv.len() && matches_at(&av, 0, &bv);
    proof {
        if av@.len() == bv@.len() {
            assert(av@.subrange(0, bv@.len() as int) =~= av@);
        }
    }
    r
}

/// Appends the characters of `s` to `v`.
pub fn push_str(v: &mut Vec<char>, s: &str)
    ensures
        final(v)@ == old(v)@ + s@,
{
    let sv = chars_of(s);
    push_chars(v, &sv);
}

/// Appends the characters of `s` to `v`.
pub fn push_chars(v: &mut Vec<char>, s: &[char])
    ensures
        final(v)@ == old(v)@ + s@,
{
    let mut k: usize = 0;
    while k < s.len()
        invariant
            k <= s@.len(),
            v@ == old(v)@ + s@.take(k as int),
        decreases s@.len() - k,
    {
        v.push(s[k]);
        k = k + 1;
        proof {
            assert(s@.take(k as int) =~= s@.take(k - 1).push(s@[k - 1]));
        }
    }
    proof {
        assert(s@.take(k as int) =~= s@);
    }
}


/// The value of an ASCII digit in base 10 or 16 (either case).
pub open spec fn digit_value(c: char) -> nat {
    if '0' <= c && c <= '9' {
        (c as u32 - '0' as u32) as nat
    } else if 'a' <= c && c <= 'f' {
        (c as u32 - 'a' as u32 + 10) as nat
    } else if 'A' <= c && c <= 'F' {
        (c as u32 - 'A' as u32 + 10) as nat
    } else {
        0
    }
}

/// An ASCII hexadecimal digit, in either case.
pub open spec fn is_hex_digit(c: char) -> bool {
    is_digit(c) || ('a' <= c && c <= 'f') || ('A' <= c && c <= 'F')
}

/// The number that the digits `s` denote in base `radix`.
pub open spec fn value_of(s: Seq<char>, radix: nat) -> nat
    decreases s.len(),
{
    if s.len() == 0 {
        0
    } else {
        value_of(s.drop_last(), radix) * radix + digit_value(s.last())
    }
}

pub fn digit_value_exec(c: char) -> (d: u32)
    requires
        is_hex_digit(c),
    ensures
        d == digit_value(c),
        d < 16,
{
    if '0' <= c && c <= '9' {
        c as u32 - '0' as u32
    } else if 'a' <= c && c <= 'f' {
        c as u32 - 'a' as u32 + 10
    } else {
        c as u32 - 'A' as u32 + 10
    }
}

pub proof fn lemma_value_of_step(s: Seq<char>, k: int, radix: nat)
    requires
        0 <= k < s.len(),
    ensures
        value_of(s.take(k + 1), radix) == value_of(s.take(k), radix) * radix + digit_value(s[k]),
{
    assert(s.take(k + 1).drop_last() =~= s.take(k));
}

pub proof fn lemma_value_of_mono(s: Seq<char>, k: int, radix: nat)
    requires
        0 <= k < s.len(),
        radix >= 1,
    ensures
        value_of(s.take(k), radix) <= value_of(s.take(k + 1), radix),
{
    lemma_value_of_step(s, k, radix);
    assert(value_of(s.take(k), radix) * radix >= value_of(s.take(k), radix)) by (nonlinear_arith)
        requires
            radix >= 1,
    ;
}

pub proof fn lemma_value_of_prefix_le(s: Seq<char>, a: int, b: int, radix: nat)
    requires
        0 <= a <= b <= s.len(),
        radix >= 1,
    ensures
        value_of(s.take(a), radix) <= value_of(s.take(b), radix),
    decreases b - a,
{
    if a < b {
        lemma_value_of_mono(s, b - 1, radix);
        lemma_value_of_prefix_le(s, a, b - 1, radix);
    }
}

pub proof fn lemma_all_digits_step(s: Seq<char>, i: int)
    requires
        0 <= i < s.len(),
        all_digits(s.take(i)),
        is_digit(s[i]),
    ensures
        all_digits(s.take(i + 1)),
{
    assert forall|j: int| 0 <= j < i + 1 implies is_digit(#[trigger] s.take(i + 1)[j]) by {
        if j < i {
            assert(s.take(i + 1)[j] == s.take(i)[j]);
        }
    }
}

/// `str::parse` for an unsigned integer type whose largest value is `max`:
/// an optional `+` followed by at least one decimal digit, of value at most `max`.
pub open spec fn parse_unsigned(s: Seq<char>, max: nat) -> Option<nat> {
    let d = if s.len() > 0 && s[0] == '+' {
        s.skip(1)
    } else {
        s
    };
    if d.len() == 0 || !all_digits(d) || value_of(d, 10) > max {
        None
    } else {
        Some(value_of(d, 10))
    }
}

/// Parses the decimal number `v[from..to]` like `str::parse` does for an
/// unsigned integer type whose largest value is `max`.
pub fn parse_unsigned_in(v: &[char], from: usize, to: usize, max: u64) -> (r: Option<u64>)
    requires
        from <= to <= v@.len(),
    ensures
        match (r, parse_unsigned(v@.subrange(from as int, to as int), max as nat)) {
            (Some(a), Some(b)) => a == b,
            (None, None) => true,
            _ => false,
        },
{
    let ghost s = v@.subrange(from as int, to as int);
    let mut start = from;
    if from < to && v[from] == '+' {
        start = from + 1;
    }
    let ghost d = v@.subrange(start as int, to as int);
    proof {
        if s.len() > 0 && s[0] == '+' {
            assert(s.skip(1) =~= d);
        } else {
            assert(s =~= d);
        }
    }
    if start == to {
        return None;
    }
    assert(parse_unsigned(v@.subrange(from as int, to as int), max as nat) == (if !all_digits(d)
        || value_of(d, 10) > max {
        None::<nat>
    } else {
        Some(value_of(d, 10))
    }));
    let mut acc: u64 = 0;
    let mut k = start;
    while k < to
        invariant
            from <= start <= k <= to <= v@.len(),
            d == v@.subrange(start as int, to as int),
            parse_unsigned(v@.subrange(from as int, to as int), max as nat) == (if !all_digits(d)
                || value_of(d, 10) > max {
                None::<nat>
            } else {
                Some(value_of(d, 10))
            }),
            all_digits(d.take(k - start)),
            acc == value_of(d.take(k - start), 10),
            acc <= max,
        decreases to - k,
    {
        assert(d[k - start] == v@[k as int]);
        if !('0' <= v[k] && v[k] <= '9') {
            proof {
                assert(!crate::text::is_digit(d[k - start]));
            }
            return None;
        }
        proof {
            lemma_value_of_step(d, k - start, 10);
        }
        let dv = digit_value_exec(v[k]) as u128;
        let next: u128 = (acc as u128) * 10 + dv;
        if next > max as u128 {
            proof {
                lemma_value_of_prefix_le(d, k - start + 1, d.len() as int, 10);
                assert(d.take(d.len() as int) =~= d);
            }
            return None;
        }
        acc = next as u64;
        k = k + 1;
        proof {
            lemma_all_digits_step(d, k - start - 1);
        }
    }
    proof {
        assert(d.take(k - start) =~= d);
    }
    Some(acc)
}

/// The decimal digits of `n`, most significant first.
pub open spec fn dec_text(n: nat) -> Seq<char>
    decreases n,
{
    if n < 10 {
        seq![('0' as u8 + n) as char]
    } else {
        dec_text(n / 10) + seq![('0' as u8 + n % 10) as char]
    }
}

/// The decimal text of `n` is one or more digits, without a leading zero
/// unless `n` is zero, that denote `n`; below 10, 100 and 1000 it has at most
/// one, two and three digits.
pub proof fn lemma_dec_text(n: nat)
    ensures
        dec_text(n).len() >= 1,
        all_digits(dec_text(n)),
        value_of(dec_text(n), 10) == n,
        n >= 10 ==> dec_text(n)[0] != '0',
        n < 10 ==> dec_text(n).len() == 1,
        n < 100 ==> dec_text(n).len() <= 2,
        n < 1000 ==> dec_text(n).len() <= 3,
        n < 10000 ==> dec_text(n).len() <= 4,
    decreases n,
{
    if n < 10 {
        let t = dec_text(n);
        assert(t.drop_last() =~= Seq::<char>::empty());
        assert(value_of(t.drop_last(), 10) == 0);
    } else {
        lemma_dec_text(n / 10);
        let h = dec_text(n / 10);
        let c = ('0' as u8 + n % 10) as char;
        let t = dec_text(n);
        assert(t == h + seq![c]);
        assert(t.drop_last() =~= h);
        assert(digit_value(c) == n % 10);
        assert forall|k: int| 0 <= k < t.len() implies is_digit(#[trigger] t[k]) by {
            if k < h.len() {
                assert(t[k] == h[k]);
            }
        }
        assert(t[0] == h[0]);
        if n / 10 < 10 {
            assert(h[0] == ('0' as u8 + n / 10) as char);
        }
    }
}

/// Appends the decimal digits of `n` to `v` (`Display` for integers).
pub fn push_decimal(v: &mut Vec<char>, n: u64)
    ensures
        final(v)@ == old(v)@ + dec_text(n as nat),
    decreases n,
{
    if n >= 10 {
        push_decimal(v, n / 10);
    }
    let d = (n % 10) as u8;
    v.push(('0' as u8 + d) as char);
}


/// Position after the last character of `s[..j]` that is not `c`
/// (`trim_end_matches(c)` keeps `s[..trim_end_pos(s, c, s.len())]`).
pub open spec fn trim_end_pos(s: Seq<char>, c: char, j: int) -> int
    decreases j,
{
    if j <= 0 {
        0
    } else if s[j - 1] == c {
        trim_end_pos(s, c, j - 1)
    } else {
        j
    }
}

/// `str::trim_end_matches(c)`.
pub open spec fn trim_end_char(s: Seq<char>, c: char) -> Seq<char> {
    s.take(trim_end_pos(s, c, s.len() as int))
}

/// Position of the first character of `s[i..]` that is not `c`
/// (`trim_start_matches(c)` keeps `s[trim_start_pos(s, c, 0)..]`).
pub open spec fn trim_start_pos(s: Seq<char>, c: char, i: int) -> int
    decreases s.len() - i,
{
    if 0 <= i < s.len() && s[i] == c {
        trim_start_pos(s, c, i + 1)
    } else {
        i
    }
}

/// `str::trim_start_matches(c)`.
pub open spec fn trim_start_char(s: Seq<char>, c: char) -> Seq<char> {
    s.skip(trim_start_pos(s, c, 0))
}

pub proof fn lemma_trim_end_pos(s: Seq<char>, c: char, j: int)
    requires
        0 <= j <= s.len(),
    ensures
        0 <= trim_end_pos(s, c, j) <= j,
    decreases j,
{
    if j > 0 && s[j - 1] == c {
        lemma_trim_end_pos(s, c, j - 1);
    }
}

pub proof fn lemma_trim_start_pos(s: Seq<char>, c: char, i: int)
    requires
        0 <= i <= s.len(),
    ensures
        i <= trim_start_pos(s, c, i) <= s.len(),
    decreases s.len() - i,
{
    if i < s.len() && s[i] == c {
        lemma_trim_start_pos(s, c, i + 1);
    }
}

/// `trim_end_matches(c)` on a character buffer.
pub fn trim_end_char_vec(v: &[char], c: char) -> (r: Vec<char>)
    ensures
        r@ == trim_end_char(v@, c),
{
    let mut k = v.len();
    while k > 0 && v[k - 1] == c
        invariant
            k <= v@.len(),
            trim_end_pos(v@, c, k as int) == trim_end_pos(v@, c, v@.len() as int),
        decreases k,
    {
        k = k - 1;
    }
    let r = slice_vec(v, 0, k);
    assert(r@ =~= v@.take(k as int));
    r
}

/// `trim_start_matches(c)` on a character buffer.
pub fn trim_start_char_vec(v: &[char], c: char) -> (r: Vec<char>)
    ensures
        r@ == trim_start_char(v@, c),
{
    let mut k: usize = 0;
    while k < v.len() && v[k] == c
        invariant
            k <= v@.len(),
            trim_start_pos(v@, c, k as int) == trim_start_pos(v@, c, 0),
        decreases v@.len() - k,
    {
        k = k + 1;
    }
    let r = slice_vec(v, k, v.len());
    assert(r@ =~= v@.skip(k as int));
    r
}

/// Whether `c` occurs in `s`.
pub fn contains_char(v: &[char], c: char) -> (r: bool)
    ensures
        r == v@.contains(c),
{
    let k = find_char(v, c, 0);
    proof {
        lemma_find_from(v@, c, 0);
        if k < v@.len() {
            assert(v@[k as int] == c);
        }
    }
    k < v.len()
}


} // verus!
