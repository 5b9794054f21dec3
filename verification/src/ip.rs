//! IP addresses: their textual forms, as `std::net::IpAddr` reads and writes them.
//!
//! An address is modelled by its numeric value. Reading follows the grammar
//! that `IpAddr::from_str` accepts (dotted quads with no leading zeros, and
//! colon-separated groups with at most one `::` and an optional trailing
//! dotted quad); writing follows `Display` (RFC 5952 for IPv6).
use vstd::prelude::*;
use vstd::arithmetic::div_mod::{lemma_div_denominator, lemma_fundamental_div_mod, lemma_small_mod};
use crate::text::{
    ascii_lower, dec_text, digit_value, digit_value_exec, is_digit, is_hex_digit,
    lemma_all_digits_lower, lemma_dec_text, lemma_lower_slices, lemma_value_of_step, lower_char,
    push_decimal, value_of,
};

verus! {

/// An IP address.
#[derive(Debug, Clone, Copy, PartialEq, Eq, Structural)]
pub enum IpAddress {
    V4(u32),
    V6(u128),
}

// ---------------------------------------------------------------------------
// Reading

pub open spec fn is_radix_digit(c: char, radix: nat) -> bool {
    if radix == 16 {
        is_hex_digit(c)
    } else {
        is_digit(c)
    }
}

/// End of the run of `radix` digits that starts at `i`.
pub open spec fn run_end(s: Seq<char>, i: int, radix: nat) -> int
    decreases s.len() - i,
{
    if 0 <= i < s.len() && is_radix_digit(s[i], radix) {
        run_end(s, i + 1, radix)
    } else {
        i
    }
}

/// Reads a number at `i`: the whole run of digits there, which must have
/// between one and `max_digits` digits, no leading zero unless
/// `allow_zero_prefix` or it is a lone zero, and a value below `bound`.
/// Gives the value and the position after it.
pub open spec fn read_number(
    s: Seq<char>,
    i: int,
    radix: nat,
    max_digits: nat,
    allow_zero_prefix: bool,
    bound: nat,
) -> Option<(nat, int)> {
    let e = run_end(s, i, radix);
    if e - i == 0 || e - i > max_digits {
        None
    } else if !allow_zero_prefix && e - i > 1 && s[i] == '0' {
        None
    } else if value_of(s.subrange(i, e), radix) >= bound {
        None
    } else {
        Some((value_of(s.subrange(i, e), radix), e))
    }
}

/// Reads one octet of a dotted quad.
pub open spec fn read_octet(s: Seq<char>, i: int) -> Option<(nat, int)> {
    read_number(s, i, 10, 3, false, 256)
}

/// Position after the separator `sep` at `i`, or `i` itself for the first item.
pub open spec fn after_sep(s: Seq<char>, i: int, first: bool, sep: char) -> Option<int> {
    if first {
        Some(i)
    } else if 0 <= i < s.len() && s[i] == sep {
        Some(i + 1)
    } else {
        None
    }
}

/// Reads the octets `k..4` of a dotted quad at `i`, given the value `acc` of
/// the octets before them.
pub open spec fn read_octets(s: Seq<char>, i: int, k: nat, acc: nat) -> Option<(nat, int)>
    decreases 4 - k,
{
    if k >= 4 {
        Some((acc, i))
    } else {
        match after_sep(s, i, k == 0, '.') {
            None => None,
            Some(j) => match read_octet(s, j) {
                None => None,
                Some((o, p)) => read_octets(s, p, k + 1, acc * 256 + o),
            },
        }
    }
}

/// Reads a dotted quad at `i`.
pub open spec fn read_ipv4(s: Seq<char>, i: int) -> Option<(nat, int)> {
    read_octets(s, i, 0, 0)
}

/// Reads groups `k..limit` of an IPv6 address at `i` after the groups `acc`:
/// hexadecimal groups of one to four digits separated by `:`, the last two of
/// which may be written as a dotted quad. Gives the groups, the position
/// after them, and whether they end in a dotted quad.
pub open spec fn read_groups(s: Seq<char>, i: int, k: nat, limit: nat, acc: Seq<nat>) -> (
    Seq<nat>,
    int,
    bool,
)
    decreases limit - k,
{
    if k >= limit {
        (acc, i, false)
    } else {
        let sep = after_sep(s, i, k == 0, ':');
        let quad = if k + 1 < limit && sep is Some {
            read_ipv4(s, sep->0)
        } else {
            None
        };
        match quad {
            Some((a, p)) => (acc + seq![a / 65536, a % 65536], p, true),
            None => match sep {
                None => (acc, i, false),
                Some(j) => match read_number(s, j, 16, 4, true, 65536) {
                    None => (acc, i, false),
                    Some((g, p)) => read_groups(s, p, k + 1, limit, acc.push(g)),
                },
            },
        }
    }
}

/// The number whose 16-bit groups, most significant first, are `g`.
pub open spec fn groups_value(g: Seq<nat>) -> nat
    decreases g.len(),
{
    if g.len() == 0 {
        0
    } else {
        groups_value(g.drop_last()) * 65536 + g.last()
    }
}

/// `n` zero groups.
pub open spec fn zeros(n: nat) -> Seq<nat> {
    Seq::new(n, |i: int| 0nat)
}

/// Reads an IPv6 address at `i`: eight groups, or the groups before and
/// after a `::` that stands for at least one zero group.
pub open spec fn read_ipv6(s: Seq<char>, i: int) -> Option<(nat, int)> {
    let (head, p, quad) = read_groups(s, i, 0, 8, seq![]);
    if head.len() == 8 {
        Some((groups_value(head), p))
    } else if quad {
        None
    } else if 0 <= p && p + 1 < s.len() && s[p] == ':' && s[p + 1] == ':' {
        let (tail, q, _) = read_groups(s, p + 2, 0, (7 - head.len()) as nat, seq![]);
        Some(
            (
                groups_value(head + zeros((8 - head.len() - tail.len()) as nat) + tail),
                q,
            ),
        )
    } else {
        None
    }
}

/// `IpAddr::from_str`.
pub open spec fn parse_ip(s: Seq<char>) -> Option<IpAddress> {
    match read_ipv4(s, 0) {
        Some((a, p)) => if p == s.len() {
            Some(IpAddress::V4(a as u32))
        } else {
            None
        },
        None => match read_ipv6(s, 0) {
            Some((a, p)) => if p == s.len() {
                Some(IpAddress::V6(a as u128))
            } else {
                None
            },
            None => None,
        },
    }
}

/// `16^n`, for the lengths of numbers that addresses hold.
pub open spec fn pow16(n: nat) -> nat {
    if n == 0 {
        1
    } else if n == 1 {
        16
    } else if n == 2 {
        256
    } else if n == 3 {
        4096
    } else {
        65536
    }
}

pub proof fn lemma_run_end(s: Seq<char>, i: int, radix: nat)
    requires
        0 <= i <= s.len(),
    ensures
        i <= run_end(s, i, radix) <= s.len(),
        forall|k: int| i <= k < run_end(s, i, radix) ==> is_radix_digit(#[trigger] s[k], radix),
        run_end(s, i, radix) < s.len() ==> !is_radix_digit(s[run_end(s, i, radix)], radix),
    decreases s.len() - i,
{
    if i < s.len() && is_radix_digit(s[i], radix) {
        lemma_run_end(s, i + 1, radix);
    }
}

/// A run of digits that ends before a non-digit (or the end) ends there.
pub proof fn lemma_run_end_at(s: Seq<char>, i: int, e: int, radix: nat)
    requires
        0 <= i <= e <= s.len(),
        forall|k: int| i <= k < e ==> is_radix_digit(#[trigger] s[k], radix),
        e == s.len() || !is_radix_digit(s[e], radix),
    ensures
        run_end(s, i, radix) == e,
    decreases e - i,
{
    if i < e {
        lemma_run_end_at(s, i + 1, e, radix);
    }
}

/// The decimal text of an octet, followed by a non-digit or the end, reads
/// as that octet.
pub proof fn lemma_read_octet_text(s: Seq<char>, i: int, n: nat)
    requires
        n < 256,
        0 <= i,
        i + dec_text(n).len() <= s.len(),
        s.subrange(i, i + dec_text(n).len()) == dec_text(n),
        i + dec_text(n).len() == s.len() || !is_digit(s[i + dec_text(n).len()]),
    ensures
        read_octet(s, i) == Some((n, i + dec_text(n).len())),
{
    let t = dec_text(n);
    let e = i + t.len();
    lemma_dec_text(n);
    assert forall|k: int| i <= k < e implies is_radix_digit(#[trigger] s[k], 10) by {
        assert(s[k] == s.subrange(i, e)[k - i]);
    }
    lemma_run_end_at(s, i, e, 10);
    if t.len() > 1 {
        assert(s[i] == t[0]);
    }
}

fn is_radix_digit_exec(c: char, radix: u32) -> (b: bool)
    ensures
        b == is_radix_digit(c, radix as nat),
{
    if radix == 16 {
        ('0' <= c && c <= '9') || ('a' <= c && c <= 'f') || ('A' <= c && c <= 'F')
    } else {
        '0' <= c && c <= '9'
    }
}

/// Reads a number at `i`, as `read_number` says.
pub fn read_number_exec(
    v: &[char],
    i: usize,
    radix: u32,
    max_digits: usize,
    allow_zero_prefix: bool,
    bound: u32,
) -> (r: Option<(u32, usize)>)
    requires
        i <= v@.len(),
        radix == 10 || radix == 16,
        max_digits <= 4,
    ensures
        match (r, read_number(
            v@,
            i as int,
            radix as nat,
            max_digits as nat,
            allow_zero_prefix,
            bound as nat,
        )) {
            (Some((a, p)), Some((b, q))) => a == b && p == q,
            (None, None) => true,
            _ => false,
        },
{
    let mut e = i;
    while e < v.len() && is_radix_digit_exec(v[e], radix)
        invariant
            i <= e <= v@.len(),
            run_end(v@, e as int, radix as nat) == run_end(v@, i as int, radix as nat),
        decreases v@.len() - e,
    {
        e = e + 1;
    }
    proof {
        lemma_run_end(v@, i as int, radix as nat);
    }
    if e - i == 0 || e - i > max_digits {
        return None;
    }
    if !allow_zero_prefix && e - i > 1 && v[i] == '0' {
        return None;
    }
    let ghost d = v@.subrange(i as int, e as int);
    let mut acc: u32 = 0;
    let mut k = i;
    while k < e
        invariant
            i <= k <= e <= v@.len(),
            e - i <= 4,
            radix == 10 || radix == 16,
            d == v@.subrange(i as int, e as int),
            forall|j: int| i <= j < e ==> is_radix_digit(#[trigger] v@[j], radix as nat),
            acc == value_of(d.take(k - i), radix as nat),
            acc < pow16((k - i) as nat),
        decreases e - k,
    {
        proof {
            lemma_value_of_step(d, k - i, radix as nat);
            assert(d[k - i] == v@[k as int]);
        }
        let dv = digit_value_exec(v[k]);
        acc = acc * radix + dv;
        k = k + 1;
    }
    proof {
        assert(d.take(e - i) =~= d);
    }
    if acc >= bound {
        return None;
    }
    Some((acc, e))
}

fn after_sep_exec(v: &[char], i: usize, first: bool, sep: char) -> (r: Option<usize>)
    requires
        i <= v@.len(),
    ensures
        match (r, after_sep(v@, i as int, first, sep)) {
            (Some(a), Some(b)) => a == b && a <= v@.len(),
            (None, None) => true,
            _ => false,
        },
{
    if first {
        Some(i)
    } else if i < v.len() && v[i] == sep {
        Some(i + 1)
    } else {
        None
    }
}

/// Reads a dotted quad at `i`.
pub fn read_ipv4_exec(v: &[char], i: usize) -> (r: Option<(u32, usize)>)
    requires
        i <= v@.len(),
    ensures
        match (r, read_ipv4(v@, i as int)) {
            (Some((a, p)), Some((b, q))) => a == b && p == q && p <= v@.len(),
            (None, None) => true,
            _ => false,
        },
{
    let mut acc: u32 = 0;
    let mut pos = i;
    let mut k: usize = 0;
    while k < 4
        invariant
            k <= 4,
            pos <= v@.len(),
            read_octets(v@, pos as int, k as nat, acc as nat) == read_ipv4(v@, i as int),
            acc < (if k == 0 {
                1nat
            } else if k == 1 {
                256nat
            } else if k == 2 {
                65536nat
            } else if k == 3 {
                16777216nat
            } else {
                4294967296nat
            }),
        decreases 4 - k,
    {
        let j = match after_sep_exec(v, pos, k == 0, '.') {
            Some(j) => j,
            None => {
                return None;
            },
        };
        let (o, p) = match read_number_exec(v, j, 10, 3, false, 256) {
            Some(x) => x,
            None => {
                return None;
            },
        };
        acc = acc * 256 + o;
        pos = p;
        k = k + 1;
        proof {
            lemma_run_end(v@, j as int, 10);
        }
    }
    Some((acc, pos))
}

pub proof fn lemma_read_number_bounds(
    s: Seq<char>,
    i: int,
    radix: nat,
    max_digits: nat,
    allow_zero_prefix: bool,
    bound: nat,
)
    requires
        0 <= i <= s.len(),
    ensures
        read_number(s, i, radix, max_digits, allow_zero_prefix, bound) matches Some((a, p)) ==> i
            < p <= s.len() && a < bound,
{
    lemma_run_end(s, i, radix);
}



/// The numbers held by a list of machine integers.
pub open spec fn nats(g: Seq<u32>) -> Seq<nat> {
    g.map_values(|x: u32| x as nat)
}

/// Reads groups of an IPv6 address at `i`, as `read_groups` says.
fn read_groups_exec(v: &[char], i: usize, limit: usize) -> (r: (Vec<u32>, usize, bool))
    requires
        i <= v@.len(),
        limit <= 8,
    ensures
        read_groups(v@, i as int, 0, limit as nat, seq![]) == (nats(r.0@), r.1 as int, r.2),
        r.1 <= v@.len(),
        r.0@.len() <= limit,
        forall|j: int| 0 <= j < r.0@.len() ==> #[trigger] r.0@[j] < 65536,
{
    let mut acc: Vec<u32> = Vec::new();
    let mut pos = i;
    let mut k: usize = 0;
    assert(nats(acc@) =~= seq![]);
    while k < limit
        invariant
            k <= limit <= 8,
            pos <= v@.len(),
            acc@.len() == k,
            forall|j: int| 0 <= j < acc@.len() ==> #[trigger] acc@[j] < 65536,
            read_groups(v@, pos as int, k as nat, limit as nat, nats(acc@)) == read_groups(
                v@,
                i as int,
                0,
                limit as nat,
                seq![],
            ),
        decreases limit - k,
    {
        let sep = after_sep_exec(v, pos, k == 0, ':');
        if k + 1 < limit {
            if let Some(j) = sep {
                if let Some((a, p)) = read_ipv4_exec(v, j) {
                    let ghost before = acc@;
                    acc.push(a / 65536);
                    acc.push(a % 65536);
                    proof {
                        assert(nats(acc@) =~= nats(before) + seq![
                            (a as nat) / 65536,
                            (a as nat) % 65536,
                        ]);
                    }
                    return (acc, p, true);
                }
            }
        }
        let j = match sep {
            Some(j) => j,
            None => {
                return (acc, pos, false);
            },
        };
        proof {
            lemma_read_number_bounds(v@, j as int, 16, 4, true, 65536);
        }
        match read_number_exec(v, j, 16, 4, true, 65536) {
            None => {
                return (acc, pos, false);
            },
            Some((g, p)) => {
                let ghost before = acc@;
                acc.push(g);
                proof {
                    assert(nats(acc@) =~= nats(before).push(g as nat));
                }
                pos = p;
                k = k + 1;
            },
        }
    }
    (acc, pos, false)
}

/// `65536^n`.
pub open spec fn pow65536(n: nat) -> nat
    decreases n,
{
    if n == 0 {
        1
    } else {
        65536 * pow65536((n - 1) as nat)
    }
}

pub proof fn lemma_pow65536_mono(a: nat, b: nat)
    requires
        a <= b,
    ensures
        pow65536(a) <= pow65536(b),
    decreases b - a,
{
    if a < b {
        lemma_pow65536_mono(a, (b - 1) as nat);
    }
}

/// The address whose eight groups are `g`.
fn groups_to_u128(g: &[u32]) -> (r: u128)
    requires
        g@.len() == 8,
        forall|j: int| 0 <= j < 8 ==> #[trigger] g@[j] < 65536,
    ensures
        r as nat == groups_value(nats(g@)),
{
    let mut acc: u128 = 0;
    let mut k: usize = 0;
    proof {
        reveal_with_fuel(pow65536, 9);
        assert(pow65536(8) == 0x1_0000_0000_0000_0000_0000_0000_0000_0000nat);
    }
    while k < 8
        invariant
            k <= 8,
            g@.len() == 8,
            forall|j: int| 0 <= j < 8 ==> #[trigger] g@[j] < 65536,
            acc as nat == groups_value(nats(g@).take(k as int)),
            acc < pow65536(k as nat),
            pow65536(8) == 0x1_0000_0000_0000_0000_0000_0000_0000_0000nat,
        decreases 8 - k,
    {
        proof {
            lemma_pow65536_mono((k + 1) as nat, 8);
            assert(nats(g@).take(k + 1).drop_last() =~= nats(g@).take(k as int));
        }
        acc = acc * 65536 + g[k] as u128;
        k = k + 1;
    }
    proof {
        assert(nats(g@).take(8) =~= nats(g@));
    }
    acc
}

/// Reads an IPv6 address at `i`.
pub fn read_ipv6_exec(v: &[char], i: usize) -> (r: Option<(u128, usize)>)
    requires
        i <= v@.len(),
    ensures
        match (r, read_ipv6(v@, i as int)) {
            (Some((a, p)), Some((b, q))) => a == b && p == q,
            (None, None) => true,
            _ => false,
        },
{
    let (head, p, quad) = read_groups_exec(v, i, 8);
    if head.len() == 8 {
        let a = groups_to_u128(&head);
        return Some((a, p));
    }
    if quad {
        return None;
    }
    if !(p < v.len() && p + 1 < v.len() && v[p] == ':' && v[p + 1] == ':') {
        return None;
    }
    let (tail, q, _) = read_groups_exec(v, p + 2, 7 - head.len());
    let mut full: Vec<u32> = Vec::new();
    let mut k: usize = 0;
    while k < head.len()
        invariant
            k <= head@.len() < 8,
            full@ == head@.take(k as int),
        decreases head@.len() - k,
    {
        full.push(head[k]);
        k = k + 1;
        proof {
            assert(head@.take(k as int) =~= head@.take(k - 1).push(head@[k - 1]));
        }
    }
    let gap = 8 - head.len() - tail.len();
    let mut z: usize = 0;
    while z < gap
        invariant
            z <= gap,
            gap == 8 - head@.len() - tail@.len(),
            head@.len() < 8,
            full@ == head@ + Seq::new(z as nat, |j: int| 0u32),
        decreases gap - z,
    {
        full.push(0);
        z = z + 1;
        proof {
            assert(Seq::new(z as nat, |j: int| 0u32) =~= Seq::new((z - 1) as nat, |j: int| 0u32).push(0u32));
        }
    }
    let mut t: usize = 0;
    while t < tail.len()
        invariant
            t <= tail@.len(),
            full@ == head@ + Seq::new(gap as nat, |j: int| 0u32) + tail@.take(t as int),
        decreases tail@.len() - t,
    {
        full.push(tail[t]);
        t = t + 1;
        proof {
            assert(tail@.take(t as int) =~= tail@.take(t - 1).push(tail@[t - 1]));
        }
    }
    proof {
        assert(tail@.take(t as int) =~= tail@);
        assert(nats(full@) =~= nats(head@) + zeros(gap as nat) + nats(tail@));
        assert forall|j: int| 0 <= j < 8 implies #[trigger] full@[j] < 65536 by {
            if j < head@.len() {
                assert(full@[j] == head@[j]);
            } else if j < head@.len() + gap {
                assert(full@[j] == 0);
            } else {
                assert(full@[j] == tail@[j - head@.len() - gap]);
            }
        }
    }
    let a = groups_to_u128(&full);
    Some((a, q))
}

/// Reads an IP address that makes up the whole of `v` (`IpAddr::from_str`).
pub fn parse_ip_chars(v: &[char]) -> (r: Option<IpAddress>)
    ensures
        r == parse_ip(v@),
{
    match read_ipv4_exec(v, 0) {
        Some((a, p)) => {
            if p == v.len() {
                Some(IpAddress::V4(a))
            } else {
                None
            }
        },
        None => match read_ipv6_exec(v, 0) {
            Some((a, p)) => {
                if p == v.len() {
                    Some(IpAddress::V6(a))
                } else {
                    None
                }
            },
            None => None,
        },
    }
}


// ---------------------------------------------------------------------------
// Writing

/// Octet `k` (0 is the most significant) of an IPv4 address.
pub open spec fn octet(a: u32, k: int) -> nat {
    if k == 0 {
        ((a as nat) / 16777216) % 256
    } else if k == 1 {
        ((a as nat) / 65536) % 256
    } else if k == 2 {
        ((a as nat) / 256) % 256
    } else {
        (a as nat) % 256
    }
}

/// `Display` for `Ipv4Addr`: the dotted quad.
pub open spec fn v4_text(a: u32) -> Seq<char> {
    dec_text(octet(a, 0)) + seq!['.'] + dec_text(octet(a, 1)) + seq!['.'] + dec_text(octet(a, 2))
        + seq!['.'] + dec_text(octet(a, 3))
}

/// Appends the dotted quad of `a`.
pub fn push_v4(out: &mut Vec<char>, a: u32)
    ensures
        final(out)@ == old(out)@ + v4_text(a),
{
    push_decimal(out, ((a / 16777216) % 256) as u64);
    out.push('.');
    push_decimal(out, ((a / 65536) % 256) as u64);
    out.push('.');
    push_decimal(out, ((a / 256) % 256) as u64);
    out.push('.');
    push_decimal(out, (a % 256) as u64);
    assert(final(out)@ =~= old(out)@ + v4_text(a));
}

/// The four octets of an IPv4 address, most significant first, make it up.
pub proof fn lemma_octets_value(a: u32)
    ensures
        ((octet(a, 0) * 256 + octet(a, 1)) * 256 + octet(a, 2)) * 256 + octet(a, 3) == a as nat,
{
    let x = a as int;
    let q1 = x / 256;
    let q2 = q1 / 256;
    let q3 = q2 / 256;
    lemma_div_denominator(x, 256, 256);
    lemma_div_denominator(q1, 256, 256);
    lemma_div_denominator(x, 65536, 256);
    assert(x / 65536 == q2);
    assert(x / 16777216 == q3);
    assert(q3 < 256);
}

/// The dotted quad of an IPv4 address at `i`, followed by the end or a
/// character that is neither a digit nor a dot, reads back as the address.
pub proof fn lemma_read_ipv4_text(s: Seq<char>, i: int, a: u32)
    requires
        0 <= i,
        i + v4_text(a).len() <= s.len(),
        s.subrange(i, i + v4_text(a).len()) == v4_text(a),
        i + v4_text(a).len() == s.len() || (!is_digit(s[i + v4_text(a).len()]) && s[i + v4_text(a).len()] != '.'),
    ensures
        read_ipv4(s, i) == Some((a as nat, i + v4_text(a).len())),
{
    let o0 = octet(a, 0);
    let o1 = octet(a, 1);
    let o2 = octet(a, 2);
    let o3 = octet(a, 3);
    let d0 = dec_text(o0);
    let d1 = dec_text(o1);
    let d2 = dec_text(o2);
    let d3 = dec_text(o3);
    lemma_dec_text(o0);
    lemma_dec_text(o1);
    lemma_dec_text(o2);
    lemma_dec_text(o3);
    let e0 = i + d0.len();
    let p1 = e0 + 1;
    let e1 = p1 + d1.len();
    let p2 = e1 + 1;
    let e2 = p2 + d2.len();
    let p3 = e2 + 1;
    let e3 = p3 + d3.len();
    let v = v4_text(a);
    assert(v =~= d0 + seq!['.'] + d1 + seq!['.'] + d2 + seq!['.'] + d3);
    assert(i + v.len() == e3);
    assert(s.subrange(i, e0) =~= v.subrange(0, d0.len() as int));
    assert(v.subrange(0, d0.len() as int) =~= d0);
    assert(s.subrange(p1, e1) =~= v.subrange(p1 - i, e1 - i));
    assert(v.subrange(p1 - i, e1 - i) =~= d1);
    assert(s.subrange(p2, e2) =~= v.subrange(p2 - i, e2 - i));
    assert(v.subrange(p2 - i, e2 - i) =~= d2);
    assert(s.subrange(p3, e3) =~= v.subrange(p3 - i, e3 - i));
    assert(v.subrange(p3 - i, e3 - i) =~= d3);
    assert(s[e0] == v[e0 - i] && s[e1] == v[e1 - i] && s[e2] == v[e2 - i]);
    assert(s[e0] == '.' && s[e1] == '.' && s[e2] == '.');
    lemma_read_octet_text(s, i, o0);
    lemma_read_octet_text(s, p1, o1);
    lemma_read_octet_text(s, p2, o2);
    lemma_read_octet_text(s, p3, o3);
    let acc1 = o0;
    let acc2 = acc1 * 256 + o1;
    let acc3 = acc2 * 256 + o2;
    let acc4 = acc3 * 256 + o3;
    assert(read_octets(s, e3, 4, acc4) == Some((acc4, e3)));
    assert(read_octets(s, e2, 3, acc3) == Some((acc4, e3)));
    assert(read_octets(s, e1, 2, acc2) == Some((acc4, e3)));
    assert(read_octets(s, e0, 1, acc1) == Some((acc4, e3)));
    assert(read_octets(s, i, 0, 0) == Some((acc4, e3)));
    lemma_octets_value(a);
}

/// A lowercase hexadecimal digit.
pub open spec fn hex_char(d: nat) -> char {
    if d < 10 {
        ('0' as u8 + d) as char
    } else {
        ('a' as u8 + (d - 10)) as char
    }
}

/// The lowercase hexadecimal digits of `n` (`{:x}`).
pub open spec fn hex_text(n: nat) -> Seq<char>
    decreases n,
{
    if n < 16 {
        seq![hex_char(n)]
    } else {
        hex_text(n / 16) + seq![hex_char(n % 16)]
    }
}

fn hex_char_exec(d: u32) -> (c: char)
    requires
        d < 16,
    ensures
        c == hex_char(d as nat),
{
    if d < 10 {
        ('0' as u8 + d as u8) as char
    } else {
        ('a' as u8 + (d - 10) as u8) as char
    }
}

fn push_hex(out: &mut Vec<char>, n: u32)
    ensures
        final(out)@ == old(out)@ + hex_text(n as nat),
    decreases n,
{
    if n >= 16 {
        push_hex(out, n / 16);
    }
    out.push(hex_char_exec(n % 16));
}

/// Divisor that brings group `k` of an IPv6 address to the low 16 bits.
pub open spec fn group_div(k: int) -> nat {
    if k == 0 {
        0x1_0000_0000_0000_0000_0000_0000_0000nat
    } else if k == 1 {
        0x1_0000_0000_0000_0000_0000_0000nat
    } else if k == 2 {
        0x1_0000_0000_0000_0000_0000nat
    } else if k == 3 {
        0x1_0000_0000_0000_0000nat
    } else if k == 4 {
        0x1_0000_0000_0000nat
    } else if k == 5 {
        0x1_0000_0000nat
    } else if k == 6 {
        0x1_0000nat
    } else {
        1nat
    }
}

/// The eight 16-bit groups of an IPv6 address, most significant first.
pub open spec fn segments(a: u128) -> Seq<nat> {
    Seq::new(8, |k: int| ((a as nat) / group_div(k)) % 65536)
}

fn group_div_exec(k: usize) -> (d: u128)
    requires
        k < 8,
    ensures
        d as nat == group_div(k as int),
        d >= 1,
{
    if k == 0 {
        0x1_0000_0000_0000_0000_0000_0000_0000
    } else if k == 1 {
        0x1_0000_0000_0000_0000_0000_0000
    } else if k == 2 {
        0x1_0000_0000_0000_0000_0000
    } else if k == 3 {
        0x1_0000_0000_0000_0000
    } else if k == 4 {
        0x1_0000_0000_0000
    } else if k == 5 {
        0x1_0000_0000
    } else if k == 6 {
        0x1_0000
    } else {
        1
    }
}

/// Number of zero groups in `g` from `i` on, up to the first non-zero one.
pub open spec fn zero_run(g: Seq<nat>, i: int) -> nat
    decreases g.len() - i,
{
    if 0 <= i < g.len() && g[i] == 0 {
        1 + zero_run(g, i + 1)
    } else {
        0
    }
}

/// Length of the longest run of zero groups in `g` from `i` on.
pub open spec fn longest_zero_run(g: Seq<nat>, i: int) -> nat
    decreases g.len() - i,
{
    if 0 <= i < g.len() {
        let here = zero_run(g, i);
        let later = longest_zero_run(g, i + 1);
        if here >= later {
            here
        } else {
            later
        }
    } else {
        0
    }
}

/// The first position at or after `i` where a run of `n` zero groups starts.
pub open spec fn first_run_of(g: Seq<nat>, i: int, n: nat) -> int
    decreases g.len() - i,
{
    if 0 <= i < g.len() && zero_run(g, i) < n {
        first_run_of(g, i + 1, n)
    } else {
        i
    }
}

/// Groups in lowercase hexadecimal, separated by `:`.
pub open spec fn join_hex(g: Seq<nat>) -> Seq<char>
    decreases g.len(),
{
    if g.len() == 0 {
        seq![]
    } else if g.len() == 1 {
        hex_text(g[0])
    } else {
        join_hex(g.drop_last()) + seq![':'] + hex_text(g.last())
    }
}

/// An IPv4-mapped IPv6 address (`::ffff:a.b.c.d`).
pub open spec fn is_v4_mapped(g: Seq<nat>) -> bool {
    g[0] == 0 && g[1] == 0 && g[2] == 0 && g[3] == 0 && g[4] == 0 && g[5] == 0xffff
}

/// `Display` for `Ipv6Addr`: IPv4-mapped addresses end in a dotted quad;
/// otherwise the groups in lowercase hexadecimal, with the first longest run
/// of two or more zero groups written as `::`.
pub open spec fn v6_text(a: u128) -> Seq<char> {
    let g = segments(a);
    if is_v4_mapped(g) {
        seq![':', ':', 'f', 'f', 'f', 'f', ':'] + v4_text(((a as nat) % 0x1_0000_0000) as u32)
    } else {
        let n = longest_zero_run(g, 0);
        if n > 1 {
            let start = first_run_of(g, 0, n);
            join_hex(g.take(start)) + seq![':', ':'] + join_hex(g.skip(start + n))
        } else {
            join_hex(g)
        }
    }
}

/// `Display` for `IpAddr`.
pub open spec fn ip_text(a: IpAddress) -> Seq<char> {
    match a {
        IpAddress::V4(x) => v4_text(x),
        IpAddress::V6(x) => v6_text(x),
    }
}

fn push_join_hex(out: &mut Vec<char>, g: &[u32], from: usize, to: usize)
    requires
        from <= to <= g@.len(),
    ensures
        final(out)@ == old(out)@ + join_hex(nats(g@).subrange(from as int, to as int)),
{
    let mut k = from;
    while k < to
        invariant
            from <= k <= to <= g@.len(),
            out@ == old(out)@ + join_hex(nats(g@).subrange(from as int, k as int)),
        decreases to - k,
    {
        if k > from {
            out.push(':');
        }
        push_hex(out, g[k]);
        k = k + 1;
        proof {
            let s = nats(g@).subrange(from as int, k as int);
            assert(s.drop_last() =~= nats(g@).subrange(from as int, k - 1));
            assert(s.last() == g@[k - 1] as nat);
        }
    }
}

proof fn lemma_zero_run_bound(g: Seq<nat>, i: int)
    requires
        0 <= i <= g.len(),
    ensures
        zero_run(g, i) <= g.len() - i,
    decreases g.len() - i,
{
    if i < g.len() && g[i] == 0 {
        lemma_zero_run_bound(g, i + 1);
    }
}

proof fn lemma_first_run(g: Seq<nat>, i: int, n: nat)
    requires
        0 <= i <= g.len(),
        1 <= n <= longest_zero_run(g, i),
    ensures
        i <= first_run_of(g, i, n) < g.len(),
        zero_run(g, first_run_of(g, i, n)) >= n,
    decreases g.len() - i,
{
    if zero_run(g, i) < n {
        lemma_first_run(g, i + 1, n);
    }
}

fn zero_run_exec(g: &[u32], i: usize) -> (n: usize)
    requires
        i <= g@.len(),
    ensures
        n == zero_run(nats(g@), i as int),
        n <= g@.len() - i,
{
    let mut k = g.len();
    let mut n: usize = 0;
    // Count backwards from the end so that the run from `k` is known.
    while k > i
        invariant
            i <= k <= g@.len(),
            n == zero_run(nats(g@), k as int),
            n <= g@.len() - k,
        decreases k,
    {
        k = k - 1;
        if g[k] == 0 {
            n = n + 1;
        } else {
            n = 0;
        }
    }
    n
}

/// Appends the RFC 5952 text of an IPv6 address.
pub fn push_v6(out: &mut Vec<char>, a: u128)
    ensures
        final(out)@ == old(out)@ + v6_text(a),
{
    let mut g: Vec<u32> = Vec::new();
    let mut k: usize = 0;
    while k < 8
        invariant
            k <= 8,
            nats(g@) == segments(a).take(k as int),
            forall|j: int| 0 <= j < g@.len() ==> #[trigger] g@[j] < 65536,
            g@.len() == k,
        decreases 8 - k,
    {
        let d = group_div_exec(k);
        let seg = ((a / d) % 65536) as u32;
        g.push(seg);
        k = k + 1;
        proof {
            assert(nats(g@) =~= segments(a).take(k as int));
        }
    }
    proof {
        assert(segments(a).take(8) =~= segments(a));
    }
    let ghost sg = segments(a);
    if g[0] == 0 && g[1] == 0 && g[2] == 0 && g[3] == 0 && g[4] == 0 && g[5] == 0xffff {
        out.push(':');
        out.push(':');
        out.push('f');
        out.push('f');
        out.push('f');
        out.push('f');
        out.push(':');
        push_v4(out, (a % 0x1_0000_0000) as u32);
        assert(final(out)@ =~= old(out)@ + v6_text(a));
        return;
    }
    let mut best: usize = 0;
    let mut best_start: usize = 8;
    let mut i: usize = 8;
    // Scan from the back; ties move the start to the earlier run.
    while i > 0
        invariant
            i <= 8,
            nats(g@) == sg,
            sg.len() == 8,
            best == longest_zero_run(sg, i as int),
            best_start == first_run_of(sg, i as int, best as nat),
            best <= 8,
        decreases i,
    {
        i = i - 1;
        let here = zero_run_exec(&g, i);
        if here >= best {
            best = here;
            best_start = i;
        }
    }
    if best > 1 {
        proof {
            lemma_first_run(sg, 0, best as nat);
            lemma_zero_run_bound(sg, best_start as int);
        }
        push_join_hex(out, &g, 0, best_start);
        out.push(':');
        out.push(':');
        push_join_hex(out, &g, best_start + best, 8);
        proof {
            assert(sg.subrange(0, best_start as int) =~= sg.take(best_start as int));
            assert(sg.subrange(best_start + best, 8) =~= sg.skip(best_start + best));
        }
    } else {
        push_join_hex(out, &g, 0, 8);
        proof {
            assert(sg.subrange(0, 8) =~= sg);
        }
    }
}

/// Appends the text of an address (`Display` for `IpAddr`).
pub fn push_ip(out: &mut Vec<char>, a: IpAddress)
    ensures
        final(out)@ == old(out)@ + ip_text(a),
{
    match a {
        IpAddress::V4(x) => push_v4(out, x),
        IpAddress::V6(x) => push_v6(out, x),
    }
}

// ---------------------------------------------------------------------------
// Reading back what is written

/// The hexadecimal text of `n` is one or more hexadecimal digits that denote
/// `n`; below 65536 it has at most four.
pub proof fn lemma_hex_text(n: nat)
    ensures
        hex_text(n).len() >= 1,
        forall|k: int| 0 <= k < hex_text(n).len() ==> is_hex_digit(#[trigger] hex_text(n)[k]),
        value_of(hex_text(n), 16) == n,
        n < 16 ==> hex_text(n).len() == 1,
        n < 256 ==> hex_text(n).len() <= 2,
        n < 4096 ==> hex_text(n).len() <= 3,
        n < 65536 ==> hex_text(n).len() <= 4,
    decreases n,
{
    if n < 16 {
        let t = hex_text(n);
        assert(t.drop_last() =~= Seq::<char>::empty());
        assert(value_of(t.drop_last(), 16) == 0);
        assert(digit_value(hex_char(n)) == n);
    } else {
        lemma_hex_text(n / 16);
        let h = hex_text(n / 16);
        let c = hex_char(n % 16);
        let t = hex_text(n);
        assert(t == h + seq![c]);
        assert(t.drop_last() =~= h);
        assert(digit_value(c) == n % 16);
        assert forall|k: int| 0 <= k < t.len() implies is_hex_digit(#[trigger] t[k]) by {
            if k < h.len() {
                assert(t[k] == h[k]);
            }
        }
    }
}

/// Joined groups are hexadecimal digits and colons.
pub proof fn lemma_join_hex_chars(g: Seq<nat>)
    ensures
        forall|k: int|
            0 <= k < join_hex(g).len() ==> is_hex_digit(#[trigger] join_hex(g)[k]) || join_hex(g)[k]
                == ':',
    decreases g.len(),
{
    if g.len() == 1 {
        lemma_hex_text(g[0]);
    } else if g.len() > 1 {
        lemma_join_hex_chars(g.drop_last());
        lemma_hex_text(g.last());
        let a = join_hex(g.drop_last());
        let h = hex_text(g.last());
        let j = join_hex(g);
        assert forall|k: int| 0 <= k < j.len() implies is_hex_digit(#[trigger] j[k]) || j[k] == ':' by {
            if k < a.len() {
                assert(j[k] == a[k]);
            } else if k > a.len() {
                assert(j[k] == h[k - a.len() - 1]);
            }
        }
    }
}

/// Joining one more group adds a colon and its digits.
pub proof fn lemma_join_hex_step(g: Seq<nat>, m: int)
    requires
        0 <= m < g.len(),
    ensures
        join_hex(g.take(m + 1)) == (if m == 0 {
            hex_text(g[0])
        } else {
            join_hex(g.take(m)) + seq![':'] + hex_text(g[m])
        }),
{
    assert(g.take(m + 1).drop_last() =~= g.take(m));
    assert(g.take(m + 1).last() == g[m]);
    if m == 0 {
        assert(g.take(1)[0] == g[0]);
    }
}

/// The joined first groups begin the joined groups.
pub proof fn lemma_join_hex_prefix(g: Seq<nat>, m: int)
    requires
        0 <= m <= g.len(),
    ensures
        join_hex(g.take(m)).len() <= join_hex(g).len(),
        join_hex(g).take(join_hex(g.take(m)).len() as int) == join_hex(g.take(m)),
    decreases g.len() - m,
{
    if m == g.len() {
        assert(g.take(m) =~= g);
        assert(join_hex(g).take(join_hex(g).len() as int) =~= join_hex(g));
    } else {
        lemma_join_hex_prefix(g, m + 1);
        lemma_join_hex_step(g, m);
        let a = join_hex(g.take(m));
        let b = join_hex(g.take(m + 1));
        let j = join_hex(g);
        if m == 0 {
            assert(g.take(0) =~= Seq::<nat>::empty());
            assert(j.take(0) =~= Seq::<char>::empty());
        } else {
            assert(b.take(a.len() as int) =~= a);
            assert(j.take(a.len() as int) =~= j.take(b.len() as int).take(a.len() as int));
        }
    }
}

/// Where a text has no dot, no dotted quad starts.
pub proof fn lemma_no_dotted_quad(s: Seq<char>, j: int)
    requires
        0 <= j <= s.len(),
        forall|k: int| 0 <= k < s.len() ==> s[k] != '.',
    ensures
        read_ipv4(s, j) is None,
{
    lemma_read_number_bounds(s, j, 10, 3, false, 256);
    match read_octet(s, j) {
        None => {},
        Some((o, p)) => {
            assert(after_sep(s, p, false, '.') is None);
            assert(read_octets(s, p, 1, 0 * 256 + o) is None);
        },
    }
}

/// No number starts at the end or before a character that is no digit of
/// its base.
pub proof fn lemma_no_number(s: Seq<char>, j: int, radix: nat, max_digits: nat, zero_prefix: bool, bound: nat)
    requires
        0 <= j <= s.len(),
        j == s.len() || !is_radix_digit(s[j], radix),
    ensures
        read_number(s, j, radix, max_digits, zero_prefix, bound) is None,
{
    lemma_run_end_at(s, j, j, radix);
}

/// The digits of a group at `j`, followed by the end or a character that is
/// no hexadecimal digit, read as the group.
pub proof fn lemma_read_hex_group(s: Seq<char>, j: int, g: nat)
    requires
        g < 65536,
        0 <= j,
        j + hex_text(g).len() <= s.len(),
        s.subrange(j, j + hex_text(g).len()) == hex_text(g),
        j + hex_text(g).len() == s.len() || !is_hex_digit(s[j + hex_text(g).len()]),
    ensures
        read_number(s, j, 16, 4, true, 65536) == Some((g, j + hex_text(g).len())),
{
    let h = hex_text(g);
    let e = j + h.len();
    lemma_hex_text(g);
    assert forall|k: int| j <= k < e implies is_radix_digit(#[trigger] s[k], 16) by {
        assert(s[k] == s.subrange(j, e)[k - j]);
    }
    lemma_run_end_at(s, j, e, 16);
    assert(s.subrange(j, e) == h);
}

/// Joined groups at `i` read back as the groups, when the text has no dot
/// and what follows them cannot continue them.
#[verifier::spinoff_prover]
pub proof fn lemma_read_groups_hex(s: Seq<char>, i: int, g: Seq<nat>, limit: nat, m: int)
    requires
        0 <= i,
        0 <= m <= g.len() <= limit,
        forall|k: int| 0 <= k < g.len() ==> #[trigger] g[k] < 65536,
        i + join_hex(g).len() <= s.len(),
        s.subrange(i, i + join_hex(g).len()) == join_hex(g),
        forall|k: int| 0 <= k < s.len() ==> s[k] != '.',
        i + join_hex(g).len() == s.len() || !is_hex_digit(s[i + join_hex(g).len()]),
        g.len() < limit ==> ({
            let e = i + join_hex(g).len();
            ||| e == s.len()
            ||| g.len() == 0 && s[e] == ':'
            ||| s[e] == ':' && (e + 1 == s.len() || s[e + 1] == ':')
        }),
    ensures
        read_groups(s, i + join_hex(g.take(m)).len(), m as nat, limit, g.take(m)) == (
            g,
            i + join_hex(g).len(),
            false,
        ),
    decreases g.len() - m,
{
    let j = join_hex(g);
    let e = i + j.len();
    lemma_join_hex_prefix(g, m);
    let pos = i + join_hex(g.take(m)).len();
    if m == g.len() {
        assert(g.take(m) =~= g);
        if g.len() < limit {
            if m == 0 {
                lemma_no_dotted_quad(s, e);
                lemma_no_number(s, e, 16, 4, true, 65536);
            } else if e < s.len() {
                lemma_no_dotted_quad(s, e + 1);
                lemma_no_number(s, e + 1, 16, 4, true, 65536);
            }
        }
    } else {
        lemma_join_hex_step(g, m);
        lemma_join_hex_prefix(g, m + 1);
        lemma_hex_text(g[m]);
        let a = join_hex(g.take(m));
        let b = join_hex(g.take(m + 1));
        let h = hex_text(g[m]);
        let start = if m == 0 { pos } else { pos + 1 };
        let next = i + b.len();
        assert(s.subrange(i, next) =~= j.take(b.len() as int)) by {
            assert forall|k: int| 0 <= k < b.len() implies s.subrange(i, next)[k] == j.take(b.len() as int)[k] by {
                assert(s.subrange(i, next)[k] == s[i + k]);
                assert(s.subrange(i, e)[k] == s[i + k]);
            }
        }
        if m > 0 {
            assert(s[pos] == b[a.len() as int]);
        }
        assert(s.subrange(start, next) =~= h) by {
            assert forall|k: int| 0 <= k < h.len() implies s.subrange(start, next)[k] == h[k] by {
                assert(s.subrange(start, next)[k] == s.subrange(i, next)[start - i + k]);
                assert(b[start - i + k] == h[k]);
            }
        }
        if next < s.len() {
            if m + 1 < g.len() {
                lemma_join_hex_step(g, m + 1);
                lemma_join_hex_prefix(g, m + 2);
                let c = join_hex(g.take(m + 2));
                assert(c[b.len() as int] == ':');
                assert(s[next] == s.subrange(i, e)[next - i]);
                assert(j.take(c.len() as int)[b.len() as int] == ':');
            } else {
                assert(g.take(m + 1) =~= g);
            }
        } else {
            assert(m + 1 == g.len() || next == s.len());
        }
        if m + 1 == g.len() {
            assert(g.take(m + 1) =~= g);
        }
        lemma_no_dotted_quad(s, start);
        lemma_read_hex_group(s, start, g[m]);
        assert(g.take(m).push(g[m]) =~= g.take(m + 1));
        lemma_read_groups_hex(s, i, g, limit, m + 1);
    }
}

/// The first `m` groups of an IPv6 address make up its value divided by the
/// weight of group `m - 1`.
proof fn lemma_groups_value_prefix(a: u128, m: int)
    requires
        1 <= m <= 8,
    ensures
        groups_value(segments(a).take(m)) == (a as nat) / group_div(m - 1),
    decreases m,
{
    let x = a as nat;
    let g = segments(a);
    assert(g.take(m).drop_last() =~= g.take(m - 1));
    assert(g.take(m).last() == g[m - 1]);
    let d = group_div(m - 1);
    let y = x / d;
    assert(g[m - 1] == y % 65536);
    lemma_fundamental_div_mod(y as int, 65536);
    if m == 1 {
        assert(g.take(0) =~= Seq::<nat>::empty());
        assert(groups_value(g.take(0)) == 0);
        lemma_fundamental_div_mod(x as int, d as int);
        assert(d * y <= x);
        assert(y < 65536);
        assert(y % 65536 == y) by {
            lemma_small_mod(y, 65536);
        }
    } else {
        lemma_groups_value_prefix(a, m - 1);
        assert(group_div(m - 2) == d * 65536);
        lemma_div_denominator(x as int, d as int, 65536);
        assert(x / group_div(m - 2) == y / 65536);
    }
}

/// The groups of an IPv6 address make it up.
pub proof fn lemma_groups_value_segments(a: u128)
    ensures
        groups_value(segments(a)) == a as nat,
{
    lemma_groups_value_prefix(a, 8);
    assert(segments(a).take(8) =~= segments(a));
}

/// A run of `n` zero groups at `i` lies within the groups.
proof fn lemma_zero_run_zeros(g: Seq<nat>, i: int, n: nat)
    requires
        0 <= i <= g.len(),
        zero_run(g, i) >= n,
    ensures
        i + n <= g.len(),
        forall|k: int| i <= k < i + n ==> g[k] == 0,
    decreases n,
{
    if n > 0 {
        lemma_zero_run_zeros(g, i + 1, (n - 1) as nat);
    }
}

/// The text of `ffff`.
proof fn lemma_hex_ffff()
    ensures
        hex_text(65535) == seq!['f', 'f', 'f', 'f'],
{
    assert(hex_char(15) == 'f');
    assert(hex_text(15) == seq!['f']);
    assert(hex_text(255) =~= seq!['f', 'f']);
    assert(hex_text(4095) =~= seq!['f', 'f', 'f']);
    assert(hex_text(65535) =~= seq!['f', 'f', 'f', 'f']);
}

/// The text of an IPv4-mapped IPv6 address reads back as the address.
#[verifier::spinoff_prover]
proof fn lemma_read_mapped_text(a: u128)
    requires
        is_v4_mapped(segments(a)),
    ensures
        parse_ip(v6_text(a)) == Some(IpAddress::V6(a)),
{
    let x = a as nat;
    let low = (x % 0x1_0000_0000) as u32;
    let v = v4_text(low);
    let s = v6_text(a);
    assert(s == seq![':', ':', 'f', 'f', 'f', 'f', ':'] + v);
    assert(s.len() == 7 + v.len());
    lemma_no_number(s, 0, 10, 3, false, 256);
    assert(read_octets(s, 0, 0, 0) is None);
    lemma_no_number(s, 0, 16, 4, true, 65536);
    assert(read_groups(s, 0, 0, 8, seq![]) == (Seq::<nat>::empty(), 0int, false));
    lemma_no_number(s, 2, 10, 3, false, 256);
    assert(read_octets(s, 2, 0, 0) is None);
    lemma_hex_ffff();
    assert(s.subrange(2, 6) =~= seq!['f', 'f', 'f', 'f']);
    lemma_read_hex_group(s, 2, 65535);
    assert(s.subrange(7, 7 + v.len() as int) =~= v);
    lemma_read_ipv4_text(s, 7, low);
    let hi = (low as nat) / 65536;
    let lo = (low as nat) % 65536;
    let tail = seq![65535nat] + seq![hi, lo];
    assert(read_groups(s, 6, 1, 7, seq![65535nat]) == (tail, s.len() as int, true));
    assert(read_groups(s, 2, 0, 7, seq![]) == (tail, s.len() as int, true));
    let g = segments(a);
    assert((a / 65536) % 65536 == (a % 0x1_0000_0000) / 65536) by (bit_vector);
    assert(a % 65536 == (a % 0x1_0000_0000) % 65536) by (bit_vector);
    assert(g[6] == hi);
    assert(g[7] == lo);
    assert(Seq::<nat>::empty() + zeros(5) + tail =~= g);
    lemma_groups_value_segments(a);
}

/// The text of an IPv6 address with a run of `::`-compressed zero groups
/// reads back as the address.
#[verifier::spinoff_prover]
proof fn lemma_read_compressed_text(a: u128)
    requires
        !is_v4_mapped(segments(a)),
        longest_zero_run(segments(a), 0) > 1,
    ensures
        parse_ip(v6_text(a)) == Some(IpAddress::V6(a)),
{
    let g = segments(a);
    let s = v6_text(a);
    let n = longest_zero_run(g, 0);
    assert forall|k: int| 0 <= k < 8 implies #[trigger] g[k] < 65536 by {}
    lemma_groups_value_segments(a);
    lemma_first_run(g, 0, n);
    let st = first_run_of(g, 0, n);
    lemma_zero_run_zeros(g, st, n);
    let h = g.take(st);
    let t = g.skip(st + n);
    let jh = join_hex(h);
    let jt = join_hex(t);
    assert(s == jh + seq![':', ':'] + jt);
    assert forall|k: int| 0 <= k < s.len() implies s[k] != '.' by {
        lemma_join_hex_chars(h);
        lemma_join_hex_chars(t);
        if k < jh.len() {
            assert(s[k] == jh[k]);
        } else if k >= jh.len() + 2 {
            assert(s[k] == jt[k - jh.len() - 2]);
        }
    }
    lemma_no_dotted_quad(s, 0);
    assert(s.subrange(0, jh.len() as int) =~= jh);
    assert(s[jh.len() as int] == ':' && s[jh.len() as int + 1] == ':');
    assert(read_groups(s, 0, 0, 8, seq![]) == (h, jh.len() as int, false)) by {
        lemma_read_groups_hex(s, 0, h, 8, 0);
        assert(h.take(0) =~= Seq::<nat>::empty());
    }
    let p = jh.len() as int + 2;
    assert(s.subrange(p, p + jt.len() as int) =~= jt);
    assert(read_groups(s, p, 0, (7 - st) as nat, seq![]) == (t, s.len() as int, false)) by {
        lemma_read_groups_hex(s, p, t, (7 - st) as nat, 0);
        assert(t.take(0) =~= Seq::<nat>::empty());
    }
    assert(h + zeros((8 - h.len() - t.len()) as nat) + t =~= g);
}

/// The text of an IPv6 address written without `::` reads back as the
/// address.
proof fn lemma_read_full_text(a: u128)
    requires
        !is_v4_mapped(segments(a)),
        longest_zero_run(segments(a), 0) <= 1,
    ensures
        parse_ip(v6_text(a)) == Some(IpAddress::V6(a)),
{
    let g = segments(a);
    let s = v6_text(a);
    assert forall|k: int| 0 <= k < 8 implies #[trigger] g[k] < 65536 by {}
    lemma_groups_value_segments(a);
    assert(s == join_hex(g));
    lemma_join_hex_chars(g);
    lemma_no_dotted_quad(s, 0);
    assert(s.subrange(0, s.len() as int) =~= s);
    assert(read_groups(s, 0, 0, 8, seq![]) == (g, s.len() as int, false)) by {
        lemma_read_groups_hex(s, 0, g, 8, 0);
        assert(g.take(0) =~= Seq::<nat>::empty());
    }
}

/// The text of an IPv6 address reads back as the address.
pub proof fn lemma_read_v6_text(a: u128)
    ensures
        parse_ip(v6_text(a)) == Some(IpAddress::V6(a)),
{
    let g = segments(a);
    if is_v4_mapped(g) {
        lemma_read_mapped_text(a);
    } else if longest_zero_run(g, 0) > 1 {
        lemma_read_compressed_text(a);
    } else {
        lemma_read_full_text(a);
    }
}

/// The text written for an address reads back as the address.
pub proof fn lemma_parse_ip_text(a: IpAddress)
    ensures
        parse_ip(ip_text(a)) == Some(a),
{
    match a {
        IpAddress::V4(x) => {
            let v = v4_text(x);
            assert(v.subrange(0, v.len() as int) =~= v);
            lemma_read_ipv4_text(v, 0, x);
        },
        IpAddress::V6(x) => {
            lemma_read_v6_text(x);
        },
    }
}

// ---------------------------------------------------------------------------
// Reading ignores letter case

/// Runs of digits end at the same place in a text and its lower case.
proof fn lemma_run_end_lower(s: Seq<char>, i: int, radix: nat)
    requires
        0 <= i <= s.len(),
    ensures
        run_end(ascii_lower(s), i, radix) == run_end(s, i, radix),
    decreases s.len() - i,
{
    if i < s.len() {
        assert(ascii_lower(s)[i] == lower_char(s[i]));
        assert(is_radix_digit(lower_char(s[i]), radix) == is_radix_digit(s[i], radix));
        lemma_run_end_lower(s, i + 1, radix);
    }
}

/// A number reads the same in a text and its lower case.
proof fn lemma_read_number_lower(
    s: Seq<char>,
    i: int,
    radix: nat,
    max_digits: nat,
    zero_prefix: bool,
    bound: nat,
)
    requires
        0 <= i <= s.len(),
        radix == 10 || radix == 16,
    ensures
        read_number(ascii_lower(s), i, radix, max_digits, zero_prefix, bound) == read_number(
            s,
            i,
            radix,
            max_digits,
            zero_prefix,
            bound,
        ),
{
    lemma_run_end_lower(s, i, radix);
    lemma_run_end(s, i, radix);
    let e = run_end(s, i, radix);
    lemma_lower_slices(s, i, e);
    lemma_all_digits_lower(s.subrange(i, e));
    if i < s.len() {
        assert(ascii_lower(s)[i] == lower_char(s[i]));
    }
}

proof fn lemma_read_octets_lower(s: Seq<char>, i: int, k: nat, acc: nat)
    requires
        0 <= i <= s.len(),
    ensures
        read_octets(ascii_lower(s), i, k, acc) == read_octets(s, i, k, acc),
    decreases 4 - k,
{
    if k < 4 {
        if i < s.len() {
            assert(ascii_lower(s)[i] == lower_char(s[i]));
        }
        match after_sep(s, i, k == 0, '.') {
            None => {},
            Some(j) => {
                lemma_read_number_lower(s, j, 10, 3, false, 256);
                lemma_read_number_bounds(s, j, 10, 3, false, 256);
                match read_octet(s, j) {
                    None => {},
                    Some((o, p)) => {
                        lemma_read_octets_lower(s, p, k + 1, acc * 256 + o);
                    },
                }
            },
        }
    }
}

proof fn lemma_read_groups_lower(s: Seq<char>, i: int, k: nat, limit: nat, acc: Seq<nat>)
    requires
        0 <= i <= s.len(),
    ensures
        read_groups(ascii_lower(s), i, k, limit, acc) == read_groups(s, i, k, limit, acc),
    decreases limit - k,
{
    if k < limit {
        if i < s.len() {
            assert(ascii_lower(s)[i] == lower_char(s[i]));
        }
        match after_sep(s, i, k == 0, ':') {
            None => {},
            Some(j) => {
                lemma_read_octets_lower(s, j, 0, 0);
                lemma_read_number_lower(s, j, 16, 4, true, 65536);
                lemma_read_number_bounds(s, j, 16, 4, true, 65536);
                match read_number(s, j, 16, 4, true, 65536) {
                    None => {},
                    Some((g, p)) => {
                        lemma_read_groups_lower(s, p, k + 1, limit, acc.push(g));
                    },
                }
            },
        }
    }
}

/// An address reads the same in a text and its lower case.
pub proof fn lemma_parse_ip_lower(s: Seq<char>)
    ensures
        parse_ip(ascii_lower(s)) == parse_ip(s),
{
    let l = ascii_lower(s);
    lemma_read_octets_lower(s, 0, 0, 0);
    lemma_read_groups_lower(s, 0, 0, 8, seq![]);
    let (head, p, quad) = read_groups(s, 0, 0, 8, seq![]);
    if 0 <= p && p + 1 < s.len() {
        assert(l[p] == lower_char(s[p]) && l[p + 1] == lower_char(s[p + 1]));
        lemma_read_groups_lower(s, p + 2, 0, (7 - head.len()) as nat, seq![]);
    }
}

} // verus!
