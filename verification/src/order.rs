//! The order of strings (`Ord` for `String`), and sorting without duplicates.
use vstd::prelude::*;
use crate::text::{all_digits, chars_of, digit_value, is_digit, value_of};
use crate::registry::strings_view;

verus! {

/// Lexicographic order of character sequences. UTF-8 keeps the order of
/// code points, so this is also the byte order in which `String` compares.
pub open spec fn seq_lt(a: Seq<char>, b: Seq<char>) -> bool
    decreases a.len(),
{
    if a.len() == 0 {
        b.len() > 0
    } else if b.len() == 0 {
        false
    } else if a[0] != b[0] {
        a[0] < b[0]
    } else {
        seq_lt(a.drop_first(), b.drop_first())
    }
}

/// Two different sequences are ordered one way or the other.
pub proof fn lemma_lt_total(a: Seq<char>, b: Seq<char>)
    requires
        a != b,
        !seq_lt(a, b),
    ensures
        seq_lt(b, a),
    decreases a.len(),
{
    if a.len() == 0 {
        assert(b.len() == 0 ==> a =~= b);
    } else if b.len() == 0 {
    } else if a[0] != b[0] {
    } else {
        if a.drop_first() == b.drop_first() {
            assert(a =~= seq![a[0]] + a.drop_first());
            assert(b =~= seq![b[0]] + b.drop_first());
        }
        lemma_lt_total(a.drop_first(), b.drop_first());
    }
}

/// No sequence is below itself.
pub proof fn lemma_lt_irreflexive(a: Seq<char>)
    ensures
        !seq_lt(a, a),
    decreases a.len(),
{
    if a.len() > 0 {
        lemma_lt_irreflexive(a.drop_first());
    }
}

/// The order is transitive.
pub proof fn lemma_lt_trans(a: Seq<char>, b: Seq<char>, c: Seq<char>)
    requires
        seq_lt(a, b),
        seq_lt(b, c),
    ensures
        seq_lt(a, c),
    decreases a.len(),
{
    if a.len() > 0 && b.len() > 0 && c.len() > 0 && a[0] == b[0] && b[0] == c[0] {
        lemma_lt_trans(a.drop_first(), b.drop_first(), c.drop_first());
    }
}

/// Whether `a` sorts before `b`.
pub fn str_lt(a: &[char], b: &[char]) -> (r: bool)
    ensures
        r == seq_lt(a@, b@),
{
    let mut k: usize = 0;
    assert(a@.skip(0) =~= a@ && b@.skip(0) =~= b@);
    while k < a.len() && k < b.len() && a[k] == b[k]
        invariant
            k <= a@.len(),
            k <= b@.len(),
            seq_lt(a@.skip(k as int), b@.skip(k as int)) == seq_lt(a@, b@),
        decreases a@.len() - k,
    {
        proof {
            assert(a@.skip(k as int).drop_first() =~= a@.skip(k + 1));
            assert(b@.skip(k as int).drop_first() =~= b@.skip(k + 1));
        }
        k = k + 1;
    }
    assert(k < a@.len() ==> a@.skip(k as int)[0] == a@[k as int]);
    assert(k < b@.len() ==> b@.skip(k as int)[0] == b@[k as int]);
    if k == a.len() {
        k < b.len()
    } else if k == b.len() {
        false
    } else {
        a[k] < b[k]
    }
}

/// Whether `a` sorts before `b` or is `b`.
pub open spec fn seq_le(a: Seq<char>, b: Seq<char>) -> bool {
    a == b || seq_lt(a, b)
}

/// Each element sorts strictly before the next.
pub open spec fn strictly_sorted(s: Seq<Seq<char>>) -> bool {
    forall|i: int| 0 <= i < s.len() - 1 ==> seq_lt(#[trigger] s[i], s[i + 1])
}

/// `v` sorted in increasing order without duplicates (`sort` then `dedup`).
pub fn sort_unique(v: Vec<String>) -> (r: Vec<String>)
    ensures
        strictly_sorted(strings_view(r@)),
        forall|x: Seq<char>| strings_view(r@).contains(x) <==> strings_view(v@).contains(x),
{
    let mut out: Vec<String> = Vec::new();
    let mut keys: Vec<Vec<char>> = Vec::new();
    let mut i: usize = 0;
    while i < v.len()
        invariant
            i <= v@.len(),
            out@.len() == keys@.len(),
            forall|j: int| 0 <= j < keys@.len() ==> #[trigger] keys@[j]@ == out@[j]@,
            strictly_sorted(strings_view(out@)),
            forall|x: Seq<char>|
                strings_view(out@).contains(x) <==> strings_view(v@).take(i as int).contains(x),
        decreases v@.len() - i,
    {
        let x = chars_of(v[i].as_str());
        let mut k: usize = 0;
        while k < keys.len() && str_lt(&keys[k], &x)
            invariant
                k <= keys@.len(),
                out@.len() == keys@.len(),
                forall|j: int| 0 <= j < keys@.len() ==> #[trigger] keys@[j]@ == out@[j]@,
                forall|j: int| 0 <= j < k ==> seq_lt(#[trigger] out@[j]@, x@),
            decreases keys@.len() - k,
        {
            k = k + 1;
        }
        let ghost ov = strings_view(out@);
        let ghost vi = strings_view(v@).take(i + 1);
        proof {
            assert(strings_view(v@).take(i as int) =~= vi.drop_last());
            assert(vi.last() == x@);
            assert forall|y: Seq<char>| vi.contains(y) <==> (vi.drop_last().contains(y) || y == x@) by {
                if vi.contains(y) {
                    let j = choose|j: int| 0 <= j < vi.len() && vi[j] == y;
                    if j < vi.len() - 1 {
                        assert(vi.drop_last()[j] == y);
                    }
                }
                if vi.drop_last().contains(y) {
                    let j = choose|j: int| 0 <= j < vi.drop_last().len() && vi.drop_last()[j] == y;
                    assert(vi[j] == y);
                }
                if y == x@ {
                    assert(vi[vi.len() - 1] == y);
                }
            }
        }
        if k < keys.len() && !str_lt(&x, &keys[k]) {
            // Already present: `x` is neither below nor above `keys[k]`.
            proof {
                if out@[k as int]@ != x@ {
                    lemma_lt_total(out@[k as int]@, x@);
                }
                assert(ov[k as int] == x@);
            }
        } else {
            proof {
                if k < keys@.len() {
                    assert(seq_lt(x@, out@[k as int]@));
                }
            }
            let s = v[i].clone();
            out.insert(k, s);
            keys.insert(k, x);
            proof {
                let nv = strings_view(out@);
                assert(nv =~= ov.take(k as int).push(x@) + ov.skip(k as int));
                assert forall|j: int| 0 <= j < nv.len() - 1 implies seq_lt(#[trigger] nv[j], nv[j + 1]) by {
                    if j < k - 1 {
                        assert(nv[j] == ov[j] && nv[j + 1] == ov[j + 1]);
                    } else if j == k - 1 {
                        assert(nv[j] == ov[j]);
                    } else if j == k {
                    } else {
                        assert(nv[j] == ov[j - 1] && nv[j + 1] == ov[j]);
                    }
                }
                assert forall|y: Seq<char>| nv.contains(y) <==> (ov.contains(y) || y == x@) by {
                    if nv.contains(y) {
                        let j = choose|j: int| 0 <= j < nv.len() && nv[j] == y;
                        if j < k {
                            assert(ov[j] == y);
                        } else if j > k {
                            assert(ov[j - 1] == y);
                        }
                    }
                    if ov.contains(y) {
                        let j = choose|j: int| 0 <= j < ov.len() && ov[j] == y;
                        if j < k {
                            assert(nv[j] == y);
                        } else {
                            assert(nv[j + 1] == y);
                        }
                    }
                    if y == x@ {
                        assert(nv[k as int] == y);
                    }
                }
            }
        }
        i = i + 1;
    }
    proof {
        assert(strings_view(v@).take(i as int) =~= strings_view(v@));
    }
    out
}

/// In a strictly sorted list every element sorts before all later ones.
pub proof fn lemma_sorted_lt(s: Seq<Seq<char>>, i: int, j: int)
    requires
        strictly_sorted(s),
        0 <= i < j < s.len(),
    ensures
        seq_lt(s[i], s[j]),
    decreases j - i,
{
    if j > i + 1 {
        lemma_sorted_lt(s, i, j - 1);
        lemma_lt_trans(s[i], s[j - 1], s[j]);
    }
}

/// A list sorted without repeats is determined by its elements: two such
/// lists with the same elements are the same list. So sorting and dropping
/// repeats gives one list whatever the order and repeats of its input, and
/// doing it again changes nothing.
pub proof fn lemma_sorted_unique_canonical(a: Seq<Seq<char>>, b: Seq<Seq<char>>)
    requires
        strictly_sorted(a),
        strictly_sorted(b),
        forall|x: Seq<char>| #![trigger a.contains(x)] #![trigger b.contains(x)] a.contains(x) <==> b.contains(x),
    ensures
        a == b,
    decreases a.len(),
{
    if a.len() == 0 {
        if b.len() > 0 {
            assert(b.contains(b[0]));
            assert(a.contains(b[0]));
        }
        assert(a =~= b);
    } else {
        assert(a.contains(a[0]));
        assert(b.contains(a[0]));
        assert(b.len() > 0);
        assert(b.contains(b[0]));
        assert(a.contains(b[0]));
        let k = choose|k: int| 0 <= k < b.len() && b[k] == a[0];
        let m = choose|m: int| 0 <= m < a.len() && a[m] == b[0];
        if k > 0 {
            lemma_sorted_lt(b, 0, k);
            if m > 0 {
                lemma_sorted_lt(a, 0, m);
                lemma_lt_trans(b[0], a[0], b[0]);
            }
            lemma_lt_irreflexive(b[0]);
        }
        assert(a[0] == b[0]);
        let ta = a.drop_first();
        let tb = b.drop_first();
        assert forall|x: Seq<char>| ta.contains(x) implies tb.contains(x) by {
            let i = choose|i: int| 0 <= i < ta.len() && ta[i] == x;
            assert(a[i + 1] == x);
            lemma_sorted_lt(a, 0, i + 1);
            assert(a.contains(x));
            assert(b.contains(x));
            let j = choose|j: int| 0 <= j < b.len() && b[j] == x;
            if j == 0 {
                lemma_lt_irreflexive(x);
            }
            assert(tb[j - 1] == x);
        }
        assert forall|x: Seq<char>| tb.contains(x) implies ta.contains(x) by {
            let i = choose|i: int| 0 <= i < tb.len() && tb[i] == x;
            assert(b[i + 1] == x);
            lemma_sorted_lt(b, 0, i + 1);
            assert(b.contains(x));
            assert(a.contains(x));
            let j = choose|j: int| 0 <= j < a.len() && a[j] == x;
            if j == 0 {
                lemma_lt_irreflexive(x);
            }
            assert(ta[j - 1] == x);
        }
        assert forall|i: int| 0 <= i < ta.len() - 1 implies seq_lt(#[trigger] ta[i], ta[i + 1]) by {
            assert(ta[i] == a[i + 1] && ta[i + 1] == a[i + 2]);
        }
        assert forall|i: int| 0 <= i < tb.len() - 1 implies seq_lt(#[trigger] tb[i], tb[i + 1]) by {
            assert(tb[i] == b[i + 1] && tb[i + 1] == b[i + 2]);
        }
        lemma_sorted_unique_canonical(ta, tb);
        assert(a =~= seq![a[0]] + ta);
        assert(b =~= seq![b[0]] + tb);
    }
}

/// Equal beginnings of the same length decide nothing: what follows does.
pub proof fn lemma_lt_common_prefix(p: Seq<char>, a: Seq<char>, b: Seq<char>)
    ensures
        seq_lt(p + a, p + b) == seq_lt(a, b),
    decreases p.len(),
{
    if p.len() > 0 {
        assert((p + a).drop_first() =~= p.drop_first() + a);
        assert((p + b).drop_first() =~= p.drop_first() + b);
        lemma_lt_common_prefix(p.drop_first(), a, b);
    } else {
        assert(p + a =~= a);
        assert(p + b =~= b);
    }
}

/// Of two texts that begin with ordered parts of the same length, the one
/// whose part sorts first sorts first.
pub proof fn lemma_lt_append(a: Seq<char>, b: Seq<char>, x: Seq<char>, y: Seq<char>)
    requires
        a.len() == b.len(),
        seq_lt(a, b),
    ensures
        seq_lt(a + x, b + y),
    decreases a.len(),
{
    assert(a.len() > 0);
    assert((a + x)[0] == a[0] && (b + y)[0] == b[0]);
    if a[0] == b[0] {
        assert((a + x).drop_first() =~= a.drop_first() + x);
        assert((b + y).drop_first() =~= b.drop_first() + y);
        lemma_lt_append(a.drop_first(), b.drop_first(), x, y);
    }
}

/// Digit texts of the same length with the same value are the same text.
pub proof fn lemma_digits_value_injective(a: Seq<char>, b: Seq<char>)
    requires
        a.len() == b.len(),
        all_digits(a),
        all_digits(b),
        value_of(a, 10) == value_of(b, 10),
    ensures
        a == b,
    decreases a.len(),
{
    if a.len() > 0 {
        let (x, y) = (a.last(), b.last());
        assert(is_digit(a[a.len() - 1]) && is_digit(b[b.len() - 1]));
        assert(all_digits(a.drop_last())) by {
            assert forall|k: int| 0 <= k < a.len() - 1 implies is_digit(#[trigger] a.drop_last()[k]) by {
                assert(a.drop_last()[k] == a[k]);
            }
        }
        assert(all_digits(b.drop_last())) by {
            assert forall|k: int| 0 <= k < b.len() - 1 implies is_digit(#[trigger] b.drop_last()[k]) by {
                assert(b.drop_last()[k] == b[k]);
            }
        }
        assert(digit_value(x) < 10 && digit_value(y) < 10);
        assert(digit_value(x) == digit_value(y));
        assert(x == y);
        lemma_digits_value_injective(a.drop_last(), b.drop_last());
        assert(a =~= a.drop_last().push(x));
        assert(b =~= b.drop_last().push(y));
    }
}

/// Digit texts of the same length sort as their values.
pub proof fn lemma_digits_value_order(a: Seq<char>, b: Seq<char>)
    requires
        a.len() == b.len(),
        all_digits(a),
        all_digits(b),
        value_of(a, 10) < value_of(b, 10),
    ensures
        seq_lt(a, b),
    decreases a.len(),
{
    let (x, y) = (a.last(), b.last());
    let (da, db) = (a.drop_last(), b.drop_last());
    assert(is_digit(a[a.len() - 1]) && is_digit(b[b.len() - 1]));
    assert(all_digits(da)) by {
        assert forall|k: int| 0 <= k < da.len() implies is_digit(#[trigger] da[k]) by {
            assert(da[k] == a[k]);
        }
    }
    assert(all_digits(db)) by {
        assert forall|k: int| 0 <= k < db.len() implies is_digit(#[trigger] db[k]) by {
            assert(db[k] == b[k]);
        }
    }
    assert(digit_value(x) < 10 && digit_value(y) < 10);
    assert(a =~= da + seq![x]);
    assert(b =~= db + seq![y]);
    if value_of(da, 10) < value_of(db, 10) {
        lemma_digits_value_order(da, db);
        lemma_lt_append(da, db, seq![x], seq![y]);
    } else {
        assert(value_of(da, 10) == value_of(db, 10));
        lemma_digits_value_injective(da, db);
        assert(digit_value(x) < digit_value(y));
        assert(x < y);
        lemma_lt_common_prefix(da, seq![x], seq![y]);
        assert(seq![x].drop_first() =~= Seq::<char>::empty());
    }
}

} // verus!
