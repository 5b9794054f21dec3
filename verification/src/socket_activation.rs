//! Sockets handed over by a supervisor (systemd socket activation): which
//! descriptor has which name, and which serve WHOIS and which RDAP.
use vstd::prelude::*;
use vstd::multiset::Multiset;
use crate::registry::opt_view;
use crate::text::{chars_of, str_eq, string_of};

verus! {

/// `str::split(sep)`: the pieces between separators, empty ones included
/// (an empty text is one empty piece).
pub open spec fn split_fields(s: Seq<char>, sep: char) -> Seq<Seq<char>>
    decreases s.len(),
{
    if s.len() == 0 {
        seq![seq![]]
    } else {
        let f = split_fields(s.drop_last(), sep);
        if s.last() == sep {
            f.push(seq![])
        } else {
            f.update(f.len() - 1, f.last().push(s.last()))
        }
    }
}


/// The names of the first `n` descriptors: the colon-separated names in
/// `names` in order (`LISTEN_FDNAMES`), none for an empty or missing name.
pub open spec fn fd_labels(n: nat, names: Seq<char>) -> Seq<Option<Seq<char>>> {
    let pieces = split_fields(names, ':');
    Seq::new(
        n,
        |i: int|
            if i < pieces.len() && pieces[i].len() > 0 {
                Some(pieces[i])
            } else {
                None
            },
    )
}

/// The descriptors of `fds` whose name in `labels` is `key`, in order.
pub open spec fn labelled(fds: Seq<i32>, labels: Seq<Option<Seq<char>>>, key: Option<Seq<char>>) -> Seq<
    i32,
>
    decreases fds.len(),
{
    if fds.len() == 0 {
        seq![]
    } else {
        let rest = labelled(fds.drop_last(), labels, key);
        if labels[fds.len() - 1] == key {
            rest.push(fds.last())
        } else {
            rest
        }
    }
}

/// No descriptor has the name `key`: none is labelled with it.
proof fn lemma_labelled_none(fds: Seq<i32>, labels: Seq<Option<Seq<char>>>, key: Option<Seq<char>>)
    requires
        forall|i: int| 0 <= i < fds.len() ==> labels[i] != key,
    ensures
        labelled(fds, labels, key) == Seq::<i32>::empty(),
    decreases fds.len(),
{
    if fds.len() > 0 {
        lemma_labelled_none(fds.drop_last(), labels, key);
    }
}

/// The view of named groups of descriptors.
pub open spec fn groups_view(v: Seq<(Option<String>, Vec<i32>)>) -> Seq<(Option<Seq<char>>, Seq<i32>)> {
    v.map_values(|g: (Option<String>, Vec<i32>)| (opt_view(g.0), g.1@))
}

/// `r` groups `fds` by their names in `labels`: one group for each name
/// that some descriptor has, holding those descriptors in order (so no
/// group is empty).
pub open spec fn groups_by_label(
    r: Seq<(Option<Seq<char>>, Seq<i32>)>,
    fds: Seq<i32>,
    labels: Seq<Option<Seq<char>>>,
) -> bool {
    &&& forall|j: int| 0 <= j < r.len() ==> #[trigger] r[j].1 == labelled(fds, labels, r[j].0)
    &&& forall|j: int, k: int| 0 <= j < k < r.len() ==> #[trigger] r[j].0 != #[trigger] r[k].0
    &&& forall|i: int|
        0 <= i < fds.len() ==> exists|j: int| 0 <= j < r.len() && #[trigger] r[j].0 == #[trigger] labels[i]
    &&& forall|j: int| 0 <= j < r.len() ==> (#[trigger] r[j]).1.len() > 0
}

proof fn lemma_labelled_push(pre: Seq<i32>, fd: i32, labels: Seq<Option<Seq<char>>>, key: Option<Seq<char>>)
    ensures
        labelled(pre.push(fd), labels, key) == (if labels[pre.len() as int] == key {
            labelled(pre, labels, key).push(fd)
        } else {
            labelled(pre, labels, key)
        }),
{
    assert(pre.push(fd).drop_last() =~= pre);
}

/// Adding a descriptor whose name has a group already extends that group.
proof fn lemma_group_found(
    before: Seq<(Option<Seq<char>>, Seq<i32>)>,
    pre: Seq<i32>,
    fd: i32,
    labels: Seq<Option<Seq<char>>>,
    j: int,
)
    requires
        groups_by_label(before, pre, labels),
        0 <= j < before.len(),
        before[j].0 == labels[pre.len() as int],
    ensures
        groups_by_label(
            before.update(j, (before[j].0, before[j].1.push(fd))),
            pre.push(fd),
            labels,
        ),
{
    let after = before.update(j, (before[j].0, before[j].1.push(fd)));
    let post = pre.push(fd);
    let l = labels[pre.len() as int];
    assert forall|m: int| 0 <= m < after.len() implies #[trigger] after[m].1 == labelled(
        post,
        labels,
        after[m].0,
    ) by {
        lemma_labelled_push(pre, fd, labels, after[m].0);
        if m != j {
            if m < j {
                assert(before[m].0 != before[j].0);
            } else {
                assert(before[j].0 != before[m].0);
            }
        }
    }
    assert forall|a: int, b: int| 0 <= a < b < after.len() implies #[trigger] after[a].0
        != #[trigger] after[b].0 by {
        assert(before[a].0 != before[b].0);
    }
    assert forall|i: int| 0 <= i < post.len() implies exists|w: int|
        0 <= w < after.len() && #[trigger] after[w].0 == #[trigger] labels[i] by {
        if i < pre.len() {
            let w = choose|w: int| 0 <= w < before.len() && #[trigger] before[w].0 == labels[i];
            assert(after[w].0 == labels[i]);
        } else {
            assert(after[j].0 == labels[i]);
        }
    }
}

/// Adding a descriptor whose name has no group yet starts a group.
proof fn lemma_group_new(
    before: Seq<(Option<Seq<char>>, Seq<i32>)>,
    pre: Seq<i32>,
    fd: i32,
    labels: Seq<Option<Seq<char>>>,
)
    requires
        groups_by_label(before, pre, labels),
        forall|m: int| 0 <= m < before.len() ==> (#[trigger] before[m]).0 != labels[pre.len() as int],
    ensures
        groups_by_label(before.push((labels[pre.len() as int], seq![fd])), pre.push(fd), labels),
{
    let l = labels[pre.len() as int];
    let after = before.push((l, seq![fd]));
    let post = pre.push(fd);
    assert forall|m: int| 0 <= m < pre.len() implies labels[m] != l by {
        if labels[m] == l {
            let w = choose|w: int| 0 <= w < before.len() && #[trigger] before[w].0 == labels[m];
            assert(before[w].0 != l);
        }
    }
    lemma_labelled_none(pre, labels, l);
    assert forall|m: int| 0 <= m < after.len() implies #[trigger] after[m].1 == labelled(
        post,
        labels,
        after[m].0,
    ) by {
        lemma_labelled_push(pre, fd, labels, after[m].0);
        if m < before.len() {
            assert(before[m].0 != l);
        } else {
            assert(Seq::<i32>::empty().push(fd) =~= seq![fd]);
        }
    }
    assert forall|a: int, b: int| 0 <= a < b < after.len() implies #[trigger] after[a].0
        != #[trigger] after[b].0 by {
        if b < before.len() {
            assert(before[a].0 != before[b].0);
        } else {
            assert(before[a].0 != l);
        }
    }
    assert forall|i: int| 0 <= i < post.len() implies exists|w: int|
        0 <= w < after.len() && #[trigger] after[w].0 == #[trigger] labels[i] by {
        if i < pre.len() {
            let w = choose|w: int| 0 <= w < before.len() && #[trigger] before[w].0 == labels[i];
            assert(after[w].0 == labels[i]);
        } else {
            assert(after[before.len() as int].0 == labels[i]);
        }
    }
}

/// `v` with `x` appended, as a new vector.
fn pushed(v: &Vec<i32>, x: i32) -> (r: Vec<i32>)
    ensures
        r@ == v@.push(x),
{
    let mut r: Vec<i32> = Vec::new();
    let mut k: usize = 0;
    while k < v.len()
        invariant
            k <= v@.len(),
            r@ == v@.take(k as int),
        decreases v@.len() - k,
    {
        r.push(v[k]);
        k = k + 1;
        proof {
            assert(r@ =~= v@.take(k as int));
        }
    }
    r.push(x);
    proof {
        assert(v@.take(k as int) =~= v@);
    }
    r
}

spec fn same_name_spec(a: Option<String>, b: Option<String>) -> bool {
    opt_view(a) == opt_view(b)
}

fn same_name(a: &Option<String>, b: &Option<String>) -> (r: bool)
    ensures
        r == same_name_spec(*a, *b),
{
    match (a, b) {
        (Some(x), Some(y)) => str_eq(x.as_str(), y.as_str()),
        (None, None) => true,
        _ => false,
    }
}

/// The colon-separated pieces of `names`.
fn split_names(names: &str) -> (r: Vec<Vec<char>>)
    ensures
        r@.map_values(|p: Vec<char>| p@) == split_fields(names@, ':'),
{
    let v = chars_of(names);
    let mut out: Vec<Vec<char>> = vec![Vec::new()];
    let mut k: usize = 0;
    proof {
        assert(v@.take(0) =~= Seq::<char>::empty());
        assert(out@.map_values(|p: Vec<char>| p@) =~= split_fields(v@.take(0), ':'));
    }
    while k < v.len()
        invariant
            k <= v@.len(),
            v@ == names@,
            out@.len() >= 1,
            out@.map_values(|p: Vec<char>| p@) == split_fields(v@.take(k as int), ':'),
        decreases v@.len() - k,
    {
        let ghost before = out@.map_values(|p: Vec<char>| p@);
        proof {
            assert(v@.take(k + 1).drop_last() =~= v@.take(k as int));
            assert(v@.take(k + 1).last() == v@[k as int]);
        }
        if v[k] == ':' {
            out.push(Vec::new());
            proof {
                assert(out@.map_values(|p: Vec<char>| p@) =~= before.push(seq![]));
            }
        } else {
            let last = out.len() - 1;
            let mut piece = out[last].clone();
            piece.push(v[k]);
            out.set(last, piece);
            proof {
                assert(out@.map_values(|p: Vec<char>| p@) =~= before.update(
                    before.len() - 1,
                    before.last().push(v@[k as int]),
                ));
            }
        }
        k = k + 1;
    }
    proof {
        assert(v@.take(k as int) =~= v@);
    }
    out
}

/// The name of descriptor `i`.
fn label_of(pieces: &Vec<Vec<char>>, i: usize) -> (r: Option<String>)
    ensures
        opt_view(r) == (if i < pieces@.len() && pieces@[i as int]@.len() > 0 {
            Some(pieces@[i as int]@)
        } else {
            None
        }),
{
    if i < pieces.len() && pieces[i].len() > 0 {
        Some(string_of(&pieces[i]))
    } else {
        None
    }
}

/// Groups the descriptors `fds` by their names in `names` (the
/// colon-separated `LISTEN_FDNAMES`); a descriptor without a name is in the
/// group of `None`.
pub fn listener_fds_by_name(fds: &[i32], names: &str) -> (r: Vec<(Option<String>, Vec<i32>)>)
    ensures
        groups_by_label(groups_view(r@), fds@, fd_labels(fds@.len(), names@)),
        all_fds(groups_view(r@)).to_multiset() == fds@.to_multiset(),
{
    let pieces = split_names(names);
    let ghost labels = fd_labels(fds@.len(), names@);
    let ghost pv = pieces@.map_values(|p: Vec<char>| p@);
    let mut out: Vec<(Option<String>, Vec<i32>)> = Vec::new();
    let mut i: usize = 0;
    proof {
        broadcast use vstd::seq_lib::group_to_multiset_ensures;
        broadcast use vstd::multiset::lemma_multiset_empty_len;

        assert(groups_view(out@) =~= Seq::empty());
        assert(fds@.take(0) =~= Seq::<i32>::empty());
        assert(all_fds(groups_view(out@)) =~= Seq::<i32>::empty());
    }
    while i < fds.len()
        invariant
            i <= fds@.len(),
            labels == fd_labels(fds@.len(), names@),
            pv == pieces@.map_values(|p: Vec<char>| p@),
            pv == split_fields(names@, ':'),
            groups_by_label(groups_view(out@), fds@.take(i as int), labels),
            all_fds(groups_view(out@)).to_multiset() == fds@.take(i as int).to_multiset(),
        decreases fds@.len() - i,
    {
        let name = label_of(&pieces, i);
        assert(opt_view(name) == labels[i as int]);
        let ghost before = groups_view(out@);
        let ghost pre = fds@.take(i as int);
        let ghost post = fds@.take(i + 1);
        assert(post.drop_last() =~= pre);
        assert(post.last() == fds@[i as int]);
        let mut j: usize = 0;
        while j < out.len()
            invariant
                j <= out@.len(),
                forall|m: int| 0 <= m < j ==> (#[trigger] groups_view(out@)[m]).0 != opt_view(name),
            ensures
                j <= out@.len(),
                forall|m: int| 0 <= m < j ==> (#[trigger] groups_view(out@)[m]).0 != opt_view(name),
                j < out@.len() ==> same_name_spec(out@[j as int].0, name),
            decreases out@.len() - j,
        {
            if same_name(&out[j].0, &name) {
                break;
            }
            j = j + 1;
        }
        if j < out.len() {
            let group = pushed(&out[j].1, fds[i]);
            proof {
                assert(same_name_spec(out@[j as int].0, name));
                lemma_group_found(before, pre, fds@[i as int], labels, j as int);
            }
            out.set(j, (name, group));
            proof {
                assert(groups_view(out@) =~= before.update(
                    j as int,
                    (before[j as int].0, before[j as int].1.push(fds@[i as int])),
                ));
                lemma_all_fds_update(before, j as int, fds@[i as int]);
            }
        } else {
            proof {
                lemma_group_new(before, pre, fds@[i as int], labels);
            }
            let single = vec![fds[i]];
            assert(single@ =~= seq![fds@[i as int]]);
            out.push((name, single));
            proof {
                assert(groups_view(out@) =~~= before.push((labels[i as int], seq![fds@[i as int]])));
                lemma_all_fds_push(before, labels[i as int], fds@[i as int]);
            }
        }
        proof {
            broadcast use vstd::seq_lib::group_to_multiset_ensures;

            assert(pre.push(fds@[i as int]) =~= post);
        }
        i = i + 1;
    }
    proof {
        assert(fds@.take(i as int) =~= fds@);
    }
    out
}

/// Whether a group of descriptors serves RDAP: its name is `rdap`.
pub open spec fn is_rdap(name: Option<Seq<char>>) -> bool {
    name == Some("rdap"@)
}

/// The descriptors of the groups that serve RDAP (`rdap` true) or WHOIS
/// (`rdap` false), group after group, each in its order.
pub open spec fn role_fds(groups: Seq<(Option<Seq<char>>, Seq<i32>)>, rdap: bool) -> Seq<i32>
    decreases groups.len(),
{
    if groups.len() == 0 {
        seq![]
    } else {
        let rest = role_fds(groups.drop_last(), rdap);
        if is_rdap(groups.last().0) == rdap {
            rest + groups.last().1
        } else {
            rest
        }
    }
}

/// All descriptors of the groups, group after group.
pub open spec fn all_fds(groups: Seq<(Option<Seq<char>>, Seq<i32>)>) -> Seq<i32>
    decreases groups.len(),
{
    if groups.len() == 0 {
        seq![]
    } else {
        all_fds(groups.drop_last()) + groups.last().1
    }
}

proof fn lemma_all_fds_update(groups: Seq<(Option<Seq<char>>, Seq<i32>)>, j: int, x: i32)
    requires
        0 <= j < groups.len(),
    ensures
        all_fds(groups.update(j, (groups[j].0, groups[j].1.push(x)))).to_multiset() == all_fds(
            groups,
        ).to_multiset().insert(x),
    decreases groups.len(),
{
    broadcast use vstd::seq_lib::lemma_multiset_commutative;
    broadcast use vstd::seq_lib::group_to_multiset_ensures;
    broadcast use vstd::multiset::group_multiset_axioms;

    let u = groups.update(j, (groups[j].0, groups[j].1.push(x)));
    let d = groups.drop_last();
    if j == groups.len() - 1 {
        assert(u.drop_last() =~= d);
        assert(all_fds(u) == all_fds(d) + groups[j].1.push(x));
        assert(all_fds(d) + groups[j].1.push(x) =~= (all_fds(d) + groups[j].1).push(x));
    } else {
        assert(u.drop_last() =~= d.update(j, (d[j].0, d[j].1.push(x))));
        lemma_all_fds_update(d, j, x);
        assert(u.last() == groups.last());
    }
}

proof fn lemma_all_fds_push(groups: Seq<(Option<Seq<char>>, Seq<i32>)>, key: Option<Seq<char>>, x: i32)
    ensures
        all_fds(groups.push((key, seq![x]))).to_multiset() == all_fds(groups).to_multiset().insert(x),
{
    broadcast use vstd::seq_lib::group_to_multiset_ensures;

    assert(groups.push((key, seq![x])).drop_last() =~= groups);
    assert(all_fds(groups) + seq![x] =~= all_fds(groups).push(x));
}

/// Every descriptor serves exactly one of WHOIS and RDAP: together the two
/// roles hold each descriptor of the groups as often as the groups do.
pub proof fn lemma_roles_partition(groups: Seq<(Option<Seq<char>>, Seq<i32>)>)
    ensures
        role_fds(groups, false).to_multiset().add(role_fds(groups, true).to_multiset())
            == all_fds(groups).to_multiset(),
    decreases groups.len(),
{
    broadcast use vstd::seq_lib::lemma_multiset_commutative;
    broadcast use vstd::multiset::group_multiset_axioms;

    if groups.len() == 0 {
        broadcast use vstd::seq_lib::group_to_multiset_ensures;
        broadcast use vstd::multiset::lemma_multiset_empty_len;

        let none = Seq::<i32>::empty();
        assert(role_fds(groups, false) =~= none);
        assert(role_fds(groups, true) =~= none);
        assert(all_fds(groups) =~= none);
        assert(none.to_multiset().len() == 0);
        assert(none.to_multiset() =~= Multiset::empty());
    } else {
        let rest = groups.drop_last();
        lemma_roles_partition(rest);
        let g = groups.last().1;
        if is_rdap(groups.last().0) {
            assert(role_fds(groups, false).to_multiset().add(role_fds(groups, true).to_multiset())
                =~= role_fds(rest, false).to_multiset().add(role_fds(rest, true).to_multiset()).add(
                g.to_multiset(),
            ));
        } else {
            assert(role_fds(groups, false).to_multiset().add(role_fds(groups, true).to_multiset())
                =~= role_fds(rest, false).to_multiset().add(role_fds(rest, true).to_multiset()).add(
                g.to_multiset(),
            ));
        }
    }
}

/// Appends `src` to `out`.
fn append_fds(out: &mut Vec<i32>, src: &Vec<i32>)
    ensures
        final(out)@ == old(out)@ + src@,
{
    let mut k: usize = 0;
    while k < src.len()
        invariant
            k <= src@.len(),
            out@ == old(out)@ + src@.take(k as int),
        decreases src@.len() - k,
    {
        out.push(src[k]);
        k = k + 1;
        proof {
            assert(src@.take(k as int) =~= src@.take(k - 1).push(src@[k - 1]));
        }
    }
    proof {
        assert(src@.take(k as int) =~= src@);
    }
}

/// Splits activated descriptors into those that serve WHOIS and those that
/// serve RDAP: the groups named `rdap` serve RDAP, all others (the unnamed
/// one too) WHOIS.
pub fn split_listener_fds_by_role(activation: Vec<(Option<String>, Vec<i32>)>) -> (r: (Vec<i32>, Vec<i32>))
    ensures
        r.0@ == role_fds(groups_view(activation@), false),
        r.1@ == role_fds(groups_view(activation@), true),
{
    let ghost gv = groups_view(activation@);
    let mut whois: Vec<i32> = Vec::new();
    let mut rdap: Vec<i32> = Vec::new();
    let mut k: usize = 0;
    while k < activation.len()
        invariant
            k <= activation@.len(),
            gv == groups_view(activation@),
            whois@ == role_fds(gv.take(k as int), false),
            rdap@ == role_fds(gv.take(k as int), true),
        decreases activation@.len() - k,
    {
        proof {
            assert(gv.take(k + 1).drop_last() =~= gv.take(k as int));
            assert(gv.take(k + 1).last() == gv[k as int]);
        }
        let serves_rdap = match &activation[k].0 {
            Some(name) => str_eq(name.as_str(), "rdap"),
            None => false,
        };
        assert(serves_rdap == is_rdap(gv[k as int].0));
        if serves_rdap {
            append_fds(&mut rdap, &activation[k].1);
        } else {
            append_fds(&mut whois, &activation[k].1);
        }
        k = k + 1;
    }
    proof {
        assert(gv.take(k as int) =~= gv);
    }
    (whois, rdap)
}

} // verus!
