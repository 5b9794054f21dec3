//! Registry objects as RDAP objects.
use vstd::prelude::*;
use crate::cidr::{covers, mask_v4, mask_v6, replace_char};
use crate::ip::{IpAddress, ip_text, push_ip};
use crate::net::{ipnet_parsed, parse_ipnet};
use crate::rdap::model::{
    EntityRef, EntityRefView, Link, LinkView, RdapObject, RdapObjectView, Remark, RemarkView,
    VCard, entities_view, links_view, remarks_view,
};
use crate::rdap::url::{opt_str_view, path_prefix, path_prefix_spec};
use crate::registry::{ObjectRef, strings_view};
use crate::rpsl::{all_values, eq_ignore_case, eq_ignore_case_exec, first_value_from};
use crate::text::{
    ascii_lower, ascii_upper, chars_of, lower_vec, parse_unsigned, parse_unsigned_in, push_chars,
    push_str, string_of, trim_end_char, trim_end_char_vec, trim_start_char, trim_start_char_vec,
    upper_vec,
};

verus! {

/// The self link of a resource: `<base><path prefix>/<route>/<value path>`
/// as the value and `.../<href path>` as the target, with trailing slashes
/// dropped from the base and leading slashes from the paths.
pub open spec fn self_link_spec(
    base: Option<Seq<char>>,
    path: Seq<char>,
    route: Seq<char>,
    value_path: Seq<char>,
    href_path: Seq<char>,
) -> LinkView {
    let b = trim_end_char(
        match base {
            Some(b) => b,
            None => seq![],
        },
        '/',
    );
    let prefix = b + path_prefix_spec(path) + seq!['/'] + route + seq!['/'];
    LinkView {
        value: prefix + trim_start_char(value_path, '/'),
        rel: "self"@,
        href: prefix + trim_start_char(href_path, '/'),
        media_type: "application/rdap+json"@,
    }
}

/// The notice that every object carries.
pub open spec fn service_notice() -> RemarkView {
    RemarkView {
        title: "Service Notice"@,
        description: seq!["This RDAP service provides DN42 registry data."@],
    }
}

/// The members that every object has: conformance, class, handle, self
/// link, the service notice and the `active` status; the others empty.
pub open spec fn base_object_spec(
    class: Seq<char>,
    handle: Seq<char>,
    base: Option<Seq<char>>,
    path: Seq<char>,
    route: Seq<char>,
    value_path: Seq<char>,
    href_path: Seq<char>,
) -> RdapObjectView {
    RdapObjectView {
        rdap_conformance: seq!["rdap_level_0"@],
        object_class_name: class,
        handle,
        ldh_name: None,
        name: None,
        links: seq![self_link_spec(base, path, route, value_path, href_path)],
        entities: seq![],
        start_autnum: None,
        end_autnum: None,
        start_address: None,
        end_address: None,
        ip_version: None,
        remarks: seq![],
        notices: seq![service_notice()],
        status: seq!["active"@],
        vcard_name: None,
    }
}

/// The entity references of one contact attribute, with one role.
pub open spec fn role_refs(
    handles: Seq<Seq<char>>,
    role: Seq<char>,
    base: Option<Seq<char>>,
    path: Seq<char>,
) -> Seq<EntityRefView> {
    handles.map_values(
        |h: Seq<char>|
            EntityRefView {
                object_class_name: "entity"@,
                handle: ascii_upper(h),
                roles: seq![role],
                links: seq![self_link_spec(base, path, "entity"@, h, h)],
            },
    )
}

/// The entities of an object: its administrative, technical and zone
/// contacts, in that order.
pub open spec fn entity_refs_spec(
    fields: Seq<(Seq<char>, Seq<char>)>,
    base: Option<Seq<char>>,
    path: Seq<char>,
) -> Seq<EntityRefView> {
    role_refs(all_values(fields, "admin-c"@), "administrative"@, base, path) + role_refs(
        all_values(fields, "tech-c"@),
        "technical"@,
        base,
        path,
    ) + role_refs(all_values(fields, "zone-c"@), "zone"@, base, path)
}

/// Whether field `i` of `fields` is attribute `key`, in any letter case.
pub open spec fn field_is(fields: Seq<(Seq<char>, Seq<char>)>, i: int, key: Seq<char>) -> bool {
    0 <= i < fields.len() && eq_ignore_case(fields[i].0, key)
}

/// Whether `v` is the value of some `key` attribute of `fields`.
pub open spec fn is_value_of(fields: Seq<(Seq<char>, Seq<char>)>, key: Seq<char>, v: Seq<char>) -> bool {
    exists|i: int| #![trigger fields[i]] field_is(fields, i, key) && fields[i].1 == v
}

/// Every value of attribute `key` is among `all_values(fields, key)`, and
/// every one of these is the value of such a field.
proof fn lemma_all_values_fields(fields: Seq<(Seq<char>, Seq<char>)>, key: Seq<char>)
    ensures
        forall|i: int|
            field_is(fields, i, key) ==> exists|j: int|
                0 <= j < all_values(fields, key).len() && #[trigger] all_values(fields, key)[j]
                    == fields[i].1,
        forall|j: int|
            0 <= j < all_values(fields, key).len() ==> is_value_of(
                fields,
                key,
                #[trigger] all_values(fields, key)[j],
            ),
    decreases fields.len(),
{
    if fields.len() > 0 {
        let d = fields.drop_last();
        let last = fields.len() - 1;
        lemma_all_values_fields(d, key);
        let rest = all_values(d, key);
        let all = all_values(fields, key);
        assert forall|i: int| field_is(fields, i, key) implies exists|j: int|
            0 <= j < all.len() && #[trigger] all[j] == fields[i].1 by {
            if i < last {
                assert(field_is(d, i, key));
                let j = choose|j: int| 0 <= j < rest.len() && #[trigger] rest[j] == d[i].1;
                assert(all[j] == rest[j]);
            } else {
                assert(all[rest.len() as int] == fields[i].1);
            }
        }
        assert forall|j: int| 0 <= j < all.len() implies is_value_of(fields, key, #[trigger] all[j]) by {
            if j < rest.len() {
                assert(all[j] == rest[j]);
                let i = choose|i: int| #![trigger d[i]] field_is(d, i, key) && d[i].1 == rest[j];
                assert(is_value_of(d, key, rest[j]));
                assert(d[i] == fields[i]);
                assert(field_is(fields, i, key) && fields[i].1 == all[j]);
            } else {
                assert(all.len() > rest.len());
                assert(eq_ignore_case(fields.last().0, key));
                assert(all[j] == fields[last].1);
                assert(field_is(fields, last, key) && fields[last].1 == all[j]);
            }
        }
    } else {
        assert(all_values(fields, key).len() == 0);
    }
}

/// Whether some `key` attribute of `fields` has the value `handle`, up to
/// ASCII letter case of the value.
pub open spec fn has_contact(fields: Seq<(Seq<char>, Seq<char>)>, key: Seq<char>, handle: Seq<char>) -> bool {
    exists|i: int| field_is(fields, i, key) && ascii_upper(#[trigger] fields[i].1) == handle
}

/// The contacts of an object and their roles: every `admin-c` value gives an
/// entity (its handle in upper case) with the one role `administrative`,
/// every `tech-c` value one with the role `technical`, every `zone-c` value
/// one with the role `zone`; and every entity is one of these.
pub proof fn lemma_entity_roles(
    fields: Seq<(Seq<char>, Seq<char>)>,
    base: Option<Seq<char>>,
    path: Seq<char>,
)
    ensures
        forall|i: int|
            field_is(fields, i, "admin-c"@) ==> exists|k: int|
                0 <= k < entity_refs_spec(fields, base, path).len() && #[trigger] entity_refs_spec(
                    fields,
                    base,
                    path,
                )[k].handle == ascii_upper(fields[i].1) && entity_refs_spec(fields, base, path)[k].roles
                    == seq!["administrative"@],
        forall|i: int|
            field_is(fields, i, "tech-c"@) ==> exists|k: int|
                0 <= k < entity_refs_spec(fields, base, path).len() && #[trigger] entity_refs_spec(
                    fields,
                    base,
                    path,
                )[k].handle == ascii_upper(fields[i].1) && entity_refs_spec(fields, base, path)[k].roles
                    == seq!["technical"@],
        forall|i: int|
            field_is(fields, i, "zone-c"@) ==> exists|k: int|
                0 <= k < entity_refs_spec(fields, base, path).len() && #[trigger] entity_refs_spec(
                    fields,
                    base,
                    path,
                )[k].handle == ascii_upper(fields[i].1) && entity_refs_spec(fields, base, path)[k].roles
                    == seq!["zone"@],
        forall|k: int|
            0 <= k < entity_refs_spec(fields, base, path).len() ==> {
                let e = #[trigger] entity_refs_spec(fields, base, path)[k];
                ||| e.roles == seq!["administrative"@] && has_contact(fields, "admin-c"@, e.handle)
                ||| e.roles == seq!["technical"@] && has_contact(fields, "tech-c"@, e.handle)
                ||| e.roles == seq!["zone"@] && has_contact(fields, "zone-c"@, e.handle)
            },
{
    let av = all_values(fields, "admin-c"@);
    let tv = all_values(fields, "tech-c"@);
    let zv = all_values(fields, "zone-c"@);
    lemma_all_values_fields(fields, "admin-c"@);
    lemma_all_values_fields(fields, "tech-c"@);
    lemma_all_values_fields(fields, "zone-c"@);
    let a = role_refs(av, "administrative"@, base, path);
    let t = role_refs(tv, "technical"@, base, path);
    let z = role_refs(zv, "zone"@, base, path);
    let refs = entity_refs_spec(fields, base, path);
    assert(refs == a + t + z);
    assert forall|i: int| field_is(fields, i, "admin-c"@) implies exists|k: int|
        0 <= k < refs.len() && #[trigger] refs[k].handle == ascii_upper(fields[i].1) && refs[k].roles
            == seq!["administrative"@] by {
        let j = choose|j: int| 0 <= j < av.len() && #[trigger] av[j] == fields[i].1;
        assert(refs[j] == a[j]);
        assert(a[j].handle == ascii_upper(av[j]));
        assert(a[j].roles == seq!["administrative"@]);
        assert(refs[j].handle == ascii_upper(fields[i].1));
    }
    assert forall|i: int| field_is(fields, i, "tech-c"@) implies exists|k: int|
        0 <= k < refs.len() && #[trigger] refs[k].handle == ascii_upper(fields[i].1) && refs[k].roles
            == seq!["technical"@] by {
        let j = choose|j: int| 0 <= j < tv.len() && #[trigger] tv[j] == fields[i].1;
        assert(refs[a.len() + j] == t[j]);
        assert(t[j].handle == ascii_upper(tv[j]));
        assert(t[j].roles == seq!["technical"@]);
        assert(refs[a.len() + j].handle == ascii_upper(fields[i].1));
    }
    assert forall|i: int| field_is(fields, i, "zone-c"@) implies exists|k: int|
        0 <= k < refs.len() && #[trigger] refs[k].handle == ascii_upper(fields[i].1) && refs[k].roles
            == seq!["zone"@] by {
        let j = choose|j: int| 0 <= j < zv.len() && #[trigger] zv[j] == fields[i].1;
        assert(refs[a.len() + t.len() + j] == z[j]);
        assert(z[j].handle == ascii_upper(zv[j]));
        assert(z[j].roles == seq!["zone"@]);
        assert(refs[a.len() + t.len() + j].handle == ascii_upper(fields[i].1));
    }
    assert forall|k: int| 0 <= k < refs.len() implies {
        let e = #[trigger] refs[k];
        ||| e.roles == seq!["administrative"@] && has_contact(fields, "admin-c"@, e.handle)
        ||| e.roles == seq!["technical"@] && has_contact(fields, "tech-c"@, e.handle)
        ||| e.roles == seq!["zone"@] && has_contact(fields, "zone-c"@, e.handle)
    } by {
        if k < a.len() {
            assert(refs[k] == a[k]);
            assert(is_value_of(fields, "admin-c"@, av[k]));
            let i = choose|i: int| #![trigger fields[i]] field_is(fields, i, "admin-c"@) && fields[i].1 == av[k];
            assert(ascii_upper(fields[i].1) == refs[k].handle);
        } else if k < a.len() + t.len() {
            let j = k - a.len();
            assert(refs[k] == t[j]);
            assert(is_value_of(fields, "tech-c"@, tv[j]));
            let i = choose|i: int| #![trigger fields[i]] field_is(fields, i, "tech-c"@) && fields[i].1 == tv[j];
            assert(ascii_upper(fields[i].1) == refs[k].handle);
        } else {
            let j = k - a.len() - t.len();
            assert(refs[k] == z[j]);
            assert(is_value_of(fields, "zone-c"@, zv[j]));
            let i = choose|i: int| #![trigger fields[i]] field_is(fields, i, "zone-c"@) && fields[i].1 == zv[j];
            assert(ascii_upper(fields[i].1) == refs[k].handle);
        }
    }
}

/// Whether an attribute is a description (`descr` or `remarks`).
pub open spec fn is_known_text(key: Seq<char>) -> bool {
    eq_ignore_case(key, "descr"@) || eq_ignore_case(key, "remarks"@)
}

/// Each description attribute (`descr` or `remarks`), as a remark titled
/// with its key.
pub open spec fn known_text_remarks(fields: Seq<(Seq<char>, Seq<char>)>) -> Seq<RemarkView>
    decreases fields.len(),
{
    if fields.len() == 0 {
        seq![]
    } else {
        let rest = known_text_remarks(fields.drop_last());
        if is_known_text(fields.last().0) {
            rest.push(RemarkView { title: fields.last().0, description: seq![fields.last().1] })
        } else {
            rest
        }
    }
}

/// Whether `key` is one of `known`, ignoring ASCII case.
pub open spec fn is_known(known: Seq<Seq<char>>, key: Seq<char>) -> bool {
    exists|i: int| 0 <= i < known.len() && eq_ignore_case(key, #[trigger] known[i])
}

/// Each attribute whose key is neither one of `known` nor a description, as
/// a remark titled with its key.
pub open spec fn other_remarks(fields: Seq<(Seq<char>, Seq<char>)>, known: Seq<Seq<char>>) -> Seq<
    RemarkView,
>
    decreases fields.len(),
{
    if fields.len() == 0 {
        seq![]
    } else {
        let rest = other_remarks(fields.drop_last(), known);
        if !is_known(known, fields.last().0) && !is_known_text(fields.last().0) {
            rest.push(RemarkView { title: fields.last().0, description: seq![fields.last().1] })
        } else {
            rest
        }
    }
}

/// Descriptions are reported once: apart from the description remarks, no
/// remark of an object is titled with a description key.
pub proof fn lemma_other_remarks_no_text(fields: Seq<(Seq<char>, Seq<char>)>, known: Seq<Seq<char>>)
    ensures
        forall|i: int|
            0 <= i < other_remarks(fields, known).len() ==> !is_known_text(
                #[trigger] other_remarks(fields, known)[i].title,
            ),
    decreases fields.len(),
{
    if fields.len() > 0 {
        let rest = other_remarks(fields.drop_last(), known);
        lemma_other_remarks_no_text(fields.drop_last(), known);
        assert forall|i: int| 0 <= i < other_remarks(fields, known).len() implies !is_known_text(
            #[trigger] other_remarks(fields, known)[i].title,
        ) by {
            if i < rest.len() {
                assert(other_remarks(fields, known)[i] == rest[i]);
            }
        }
    }
}

/// The remarks of an object: its descriptions, then each other attribute
/// that is not one of `known`.
pub open spec fn remarks_spec(fields: Seq<(Seq<char>, Seq<char>)>, known: Seq<Seq<char>>) -> Seq<
    RemarkView,
> {
    known_text_remarks(fields) + other_remarks(fields, known)
}

/// `s` with every leading copy of `p` removed (`trim_start_matches(p)`).
pub open spec fn strip_all(s: Seq<char>, p: Seq<char>) -> Seq<char>
    decreases s.len(),
{
    if p.len() > 0 && p.len() <= s.len() && s.take(p.len() as int) == p {
        strip_all(s.skip(p.len() as int), p)
    } else {
        s
    }
}

/// The RDAP autnum object of an `aut-num` registry object.
pub open spec fn autnum_spec(
    name: Seq<char>,
    fields: Seq<(Seq<char>, Seq<char>)>,
    base: Option<Seq<char>>,
    path: Seq<char>,
    query: Seq<char>,
) -> RdapObjectView {
    let handle = ascii_upper(name);
    let number = match parse_unsigned(strip_all(handle, "AS"@), 0xffff_ffff_ffff_ffff) {
        Some(n) => Some(n as u64),
        None => None,
    };
    RdapObjectView {
        start_autnum: number,
        end_autnum: number,
        name: first_value_from(fields, "as-name"@, 0),
        entities: entity_refs_spec(fields, base, path),
        remarks: remarks_spec(
            fields,
            seq!["aut-num"@, "as-name"@, "admin-c"@, "tech-c"@, "zone-c"@, "source"@],
        ),
        ..base_object_spec("autnum"@, handle, base, path, "autnum"@, query, handle)
    }
}

/// The RDAP domain object of a `dns` registry object.
pub open spec fn domain_spec(
    name: Seq<char>,
    fields: Seq<(Seq<char>, Seq<char>)>,
    base: Option<Seq<char>>,
    path: Seq<char>,
    query: Seq<char>,
) -> RdapObjectView {
    let handle = ascii_lower(name);
    RdapObjectView {
        ldh_name: Some(handle),
        entities: entity_refs_spec(fields, base, path),
        remarks: remarks_spec(fields, seq!["domain"@, "admin-c"@, "tech-c"@, "zone-c"@, "source"@]),
        ..base_object_spec("domain"@, handle, base, path, "domain"@, query, handle)
    }
}

/// The RDAP entity object of a `person` or `mntner` registry object; its
/// vCard name is the person, else the maintainer, else the handle.
pub open spec fn entity_spec(
    name: Seq<char>,
    fields: Seq<(Seq<char>, Seq<char>)>,
    base: Option<Seq<char>>,
    path: Seq<char>,
    query: Seq<char>,
) -> RdapObjectView {
    let handle = ascii_upper(name);
    let full_name = match first_value_from(fields, "person"@, 0) {
        Some(p) => p,
        None => match first_value_from(fields, "mntner"@, 0) {
            Some(m) => m,
            None => handle,
        },
    };
    RdapObjectView {
        vcard_name: Some(full_name),
        remarks: remarks_spec(fields, seq!["person"@, "nic-hdl"@, "mntner"@, "source"@]),
        ..base_object_spec("entity"@, handle, base, path, "entity"@, query, handle)
    }
}

fn push_link_base(out: &mut Vec<char>, base_url: Option<&str>, path: &str, route: &str)
    ensures
        final(out)@ == old(out)@ + trim_end_char(
            match opt_str_view(base_url) {
                Some(b) => b,
                None => seq![],
            },
            '/',
        ) + path_prefix_spec(path@) + seq!['/'] + route@ + seq!['/'],
{
    let bv = match base_url {
        Some(b) => chars_of(b),
        None => Vec::new(),
    };
    let b = trim_end_char_vec(&bv, '/');
    push_chars(out, &b);
    let p = path_prefix(path);
    push_chars(out, &p);
    out.push('/');
    push_str(out, route);
    out.push('/');
    proof {
        assert(final(out)@ =~= old(out)@ + b@ + p@ + seq!['/'] + route@ + seq!['/']);
    }
}

/// The self link of a resource.
pub fn self_link(
    base_url: Option<&str>,
    path: &str,
    route: &str,
    value_path: &str,
    href_path: &str,
) -> (r: Link)
    ensures
        r@ == self_link_spec(opt_str_view(base_url), path@, route@, value_path@, href_path@),
{
    let mut value: Vec<char> = Vec::new();
    push_link_base(&mut value, base_url, path, route);
    let mut href = value.clone();
    let vp = chars_of(value_path);
    let vt = trim_start_char_vec(&vp, '/');
    push_chars(&mut value, &vt);
    let hp = chars_of(href_path);
    let ht = trim_start_char_vec(&hp, '/');
    push_chars(&mut href, &ht);
    proof {
        assert(value@ =~= self_link_spec(opt_str_view(base_url), path@, route@, value_path@, href_path@).value);
        assert(href@ =~= self_link_spec(opt_str_view(base_url), path@, route@, value_path@, href_path@).href);
    }
    Link {
        value: string_of(&value),
        rel: String::from_str("self"),
        href: string_of(&href),
        media_type: String::from_str("application/rdap+json"),
    }
}

fn one_string(s: String) -> (r: Vec<String>)
    ensures
        strings_view(r@) == seq![s@],
{
    let mut v: Vec<String> = Vec::new();
    v.push(s);
    assert(strings_view(v@) =~= seq![s@]);
    v
}

/// The members that every object has.
pub fn base_object(
    class_name: &str,
    handle: String,
    base_url: Option<&str>,
    path: &str,
    route: &str,
    value_path: &str,
    href_path: &str,
) -> (r: RdapObject)
    ensures
        r@ == base_object_spec(class_name@, handle@, opt_str_view(base_url), path@, route@, value_path@, href_path@),
{
    let vp = chars_of(value_path);
    let vt = string_of(&trim_start_char_vec(&vp, '/'));
    let hp = chars_of(href_path);
    let ht = string_of(&trim_start_char_vec(&hp, '/'));
    let link = self_link(base_url, path, route, vt.as_str(), ht.as_str());
    proof {
        crate::text::lemma_trim_start_pos(value_path@, '/', 0);
        crate::text::lemma_trim_start_pos(href_path@, '/', 0);
        lemma_trim_start_twice(value_path@);
        lemma_trim_start_twice(href_path@);
    }
    let mut links: Vec<Link> = Vec::new();
    links.push(link);
    let notice = Remark {
        title: String::from_str("Service Notice"),
        description: one_string(String::from_str("This RDAP service provides DN42 registry data.")),
    };
    let mut notices: Vec<Remark> = Vec::new();
    notices.push(notice);
    let r = RdapObject {
        rdap_conformance: one_string(String::from_str("rdap_level_0")),
        object_class_name: String::from_str(class_name),
        handle,
        ldh_name: None,
        name: None,
        links,
        entities: Vec::new(),
        start_autnum: None,
        end_autnum: None,
        start_address: None,
        end_address: None,
        ip_version: None,
        remarks: Vec::new(),
        notices,
        status: one_string(String::from_str("active")),
        vcard_array: None,
    };
    proof {
        assert(links_view(r.links@) =~= seq![link@]);
        assert(entities_view(r.entities@) =~= seq![]);
        assert(remarks_view(r.remarks@) =~= seq![]);
        assert(remarks_view(r.notices@) =~= seq![notice@]);
        assert(r@ =~~= base_object_spec(class_name@, handle@, opt_str_view(base_url), path@, route@, value_path@, href_path@));
    }
    r
}

proof fn lemma_trim_start_twice(s: Seq<char>)
    ensures
        trim_start_char(trim_start_char(s, '/'), '/') == trim_start_char(s, '/'),
{
    let t = trim_start_char(s, '/');
    crate::text::lemma_trim_start_pos(s, '/', 0);
    lemma_trim_start_none(s, 0);
    assert(trim_start_char(t, '/') =~= t);
}

proof fn lemma_trim_start_none(s: Seq<char>, i: int)
    requires
        0 <= i <= s.len(),
    ensures
        ({
            let p = crate::text::trim_start_pos(s, '/', i);
            p < s.len() ==> s[p] != '/'
        }),
        crate::text::trim_start_pos(s.skip(crate::text::trim_start_pos(s, '/', i)), '/', 0) == 0,
    decreases s.len() - i,
{
    if i < s.len() && s[i] == '/' {
        lemma_trim_start_none(s, i + 1);
    }
    crate::text::lemma_trim_start_pos(s, '/', i);
}


/// Appends the entity references of one contact attribute.
fn push_role_refs(
    out: &mut Vec<EntityRef>,
    object: &ObjectRef,
    key: &str,
    role: &str,
    base_url: Option<&str>,
    path: &str,
)
    ensures
        entities_view(final(out)@) == entities_view(old(out)@) + role_refs(
            all_values(object.rpsl@, key@),
            role@,
            opt_str_view(base_url),
            path@,
        ),
{
    let handles = object.rpsl.get_all(key);
    let ghost hv = handles@.map_values(|t: &str| t@);
    let ghost start = entities_view(out@);
    let mut k: usize = 0;
    proof {
        assert(role_refs(hv.take(0), role@, opt_str_view(base_url), path@) =~= seq![]);
        assert(start + seq![] =~= start);
    }
    while k < handles.len()
        invariant
            k <= handles@.len(),
            hv == handles@.map_values(|t: &str| t@),
            entities_view(out@) == start + role_refs(hv.take(k as int), role@, opt_str_view(base_url), path@),
        decreases handles@.len() - k,
    {
        let ghost before = entities_view(out@);
        let h = handles[k];
        let hc = chars_of(h);
        let up = upper_vec(&hc);
        let link = self_link(base_url, path, "entity", h, h);
        let mut links: Vec<Link> = Vec::new();
        links.push(link);
        let e = EntityRef {
            object_class_name: String::from_str("entity"),
            handle: string_of(&up),
            roles: one_string(String::from_str(role)),
            links,
        };
        proof {
            reveal_strlit("entity");
            assert(links_view(e.links@) =~= seq![link@]);
        }
        let ghost ev = EntityRefView {
            object_class_name: "entity"@,
            handle: ascii_upper(h@),
            roles: seq![role@],
            links: seq![self_link_spec(opt_str_view(base_url), path@, "entity"@, h@, h@)],
        };
        assert(e@ =~~= ev);
        out.push(e);
        k = k + 1;
        proof {
            assert(hv.take(k as int) =~= hv.take(k - 1).push(h@));
            assert(role_refs(hv.take(k as int), role@, opt_str_view(base_url), path@) =~= role_refs(
                hv.take(k - 1),
                role@,
                opt_str_view(base_url),
                path@,
            ).push(ev));
            assert(entities_view(out@) =~= before.push(ev));
            assert(entities_view(out@) =~~= start + role_refs(hv.take(k as int), role@, opt_str_view(base_url), path@));
        }
    }
    proof {
        assert(hv.take(k as int) =~= hv);
    }
}

/// The entities of an object.
pub fn entity_refs(object: &ObjectRef, base_url: Option<&str>, path: &str) -> (r: Vec<EntityRef>)
    ensures
        entities_view(r@) == entity_refs_spec(object.rpsl@, opt_str_view(base_url), path@),
{
    let mut out: Vec<EntityRef> = Vec::new();
    proof {
        assert(entities_view(out@) =~= seq![]);
    }
    push_role_refs(&mut out, object, "admin-c", "administrative", base_url, path);
    push_role_refs(&mut out, object, "tech-c", "technical", base_url, path);
    push_role_refs(&mut out, object, "zone-c", "zone", base_url, path);
    proof {
        assert(entities_view(out@) =~= entity_refs_spec(object.rpsl@, opt_str_view(base_url), path@));
    }
    out
}

fn remark_of(key: &String, value: &String) -> (r: Remark)
    ensures
        r@ == (RemarkView { title: key@, description: seq![value@] }),
{
    Remark { title: key.clone(), description: one_string(value.clone()) }
}

/// Appends the descriptions of an object as remarks.
fn push_known_text_remarks(out: &mut Vec<Remark>, object: &ObjectRef)
    ensures
        remarks_view(final(out)@) == remarks_view(old(out)@) + known_text_remarks(object.rpsl@),
{
    let ghost fv = object.rpsl@;
    let ghost start = remarks_view(out@);
    let descr = chars_of("descr");
    let remarks = chars_of("remarks");
    let mut k: usize = 0;
    proof {
        assert(fv.take(0) =~= seq![]);
        assert(start + seq![] =~= start);
    }
    while k < object.rpsl.fields.len()
        invariant
            k <= object.rpsl.fields@.len(),
            fv == object.rpsl@,
            descr@ == "descr"@,
            remarks@ == "remarks"@,
            remarks_view(out@) == start + known_text_remarks(fv.take(k as int)),
        decreases object.rpsl.fields@.len() - k,
    {
        let ghost before = remarks_view(out@);
        let key = &object.rpsl.fields[k].0;
        let kc = chars_of(key.as_str());
        proof {
            assert(fv.take(k + 1).drop_last() =~= fv.take(k as int));
            assert(fv.take(k + 1).last() == (key@, object.rpsl.fields@[k as int].1@));
        }
        if eq_ignore_case_exec(&kc, &descr) || eq_ignore_case_exec(&kc, &remarks) {
            let rm = remark_of(key, &object.rpsl.fields[k].1);
            out.push(rm);
            proof {
                assert(remarks_view(out@) =~~= before.push(rm@));
            }
        }
        k = k + 1;
    }
    proof {
        assert(fv.take(k as int) =~= fv);
    }
}

/// Appends, as remarks, the attributes of an object whose keys are neither
/// `known` nor descriptions.
fn push_other_remarks(out: &mut Vec<Remark>, object: &ObjectRef, known: &[&str])
    ensures
        remarks_view(final(out)@) == remarks_view(old(out)@) + other_remarks(
            object.rpsl@,
            known@.map_values(|t: &str| t@),
        ),
{
    let ghost fv = object.rpsl@;
    let ghost kv = known@.map_values(|t: &str| t@);
    let ghost start = remarks_view(out@);
    let descr = chars_of("descr");
    let remarks = chars_of("remarks");
    let mut k: usize = 0;
    proof {
        assert(fv.take(0) =~= seq![]);
        assert(start + seq![] =~= start);
    }
    while k < object.rpsl.fields.len()
        invariant
            k <= object.rpsl.fields@.len(),
            fv == object.rpsl@,
            kv == known@.map_values(|t: &str| t@),
            descr@ == "descr"@,
            remarks@ == "remarks"@,
            remarks_view(out@) == start + other_remarks(fv.take(k as int), kv),
        decreases object.rpsl.fields@.len() - k,
    {
        let ghost before = remarks_view(out@);
        let key = &object.rpsl.fields[k].0;
        let kc = chars_of(key.as_str());
        proof {
            assert(fv.take(k + 1).drop_last() =~= fv.take(k as int));
            assert(fv.take(k + 1).last() == (key@, object.rpsl.fields@[k as int].1@));
        }
        let mut j: usize = 0;
        let mut found = false;
        while j < known.len()
            invariant
                j <= known@.len(),
                kv == known@.map_values(|t: &str| t@),
                found == exists|i: int| 0 <= i < j && eq_ignore_case(kc@, #[trigger] kv[i]),
            decreases known@.len() - j,
        {
            let kn = chars_of(known[j]);
            if eq_ignore_case_exec(&kc, &kn) {
                found = true;
            }
            proof {
                assert(kv[j as int] == kn@);
                if found {
                    let i = choose|i: int| 0 <= i < j + 1 && eq_ignore_case(kc@, #[trigger] kv[i]);
                    assert(0 <= i < j + 1);
                }
            }
            j = j + 1;
        }
        let text = eq_ignore_case_exec(&kc, &descr) || eq_ignore_case_exec(&kc, &remarks);
        if !found && !text {
            let rm = remark_of(key, &object.rpsl.fields[k].1);
            out.push(rm);
            proof {
                assert(remarks_view(out@) =~~= before.push(rm@));
            }
        }
        k = k + 1;
    }
    proof {
        assert(fv.take(k as int) =~= fv);
    }
}

/// The remarks of an object.
pub fn remarks(object: &ObjectRef, known: &[&str]) -> (r: Vec<Remark>)
    ensures
        remarks_view(r@) == remarks_spec(object.rpsl@, known@.map_values(|t: &str| t@)),
{
    let mut out: Vec<Remark> = Vec::new();
    proof {
        assert(remarks_view(out@) =~= seq![]);
    }
    push_known_text_remarks(&mut out, object);
    push_other_remarks(&mut out, object, known);
    out
}


/// Drops every leading `AS` (`trim_start_matches("AS")`).
fn strip_all_as(v: &[char]) -> (r: usize)
    ensures
        r <= v@.len(),
        v@.skip(r as int) == strip_all(v@, "AS"@),
{
    proof {
        reveal_strlit("AS");
    }
    let mut k: usize = 0;
    assert(v@.skip(0) =~= v@);
    while k < v.len() && v.len() - k >= 2 && v[k] == 'A' && v[k + 1] == 'S'
        invariant
            k <= v@.len(),
            "AS"@ == seq!['A', 'S'],
            strip_all(v@.skip(k as int), "AS"@) == strip_all(v@, "AS"@),
        decreases v@.len() - k,
    {
        proof {
            let t = v@.skip(k as int);
            assert(t.take(2) =~= seq!['A', 'S']);
            assert(t.skip(2) =~= v@.skip(k + 2));
        }
        k = k + 2;
    }
    proof {
        let t = v@.skip(k as int);
        if t.len() >= 2 {
            assert(t.take(2) =~= seq![t[0], t[1]]);
            assert(t[0] == v@[k as int] && t[1] == v@[k + 1]);
        }
    }
    k
}

fn opt_string(o: Option<&str>) -> (r: Option<String>)
    ensures
        crate::registry::opt_view(r) == opt_str_view(o),
{
    match o {
        Some(s) => Some(String::from_str(s)),
        None => None,
    }
}

/// The RDAP autnum object of an `aut-num` registry object.
pub fn autnum(object: &ObjectRef, base_url: Option<&str>, path: &str, query: &str) -> (r: RdapObject)
    ensures
        r@ == autnum_spec(object.object_name@, object.rpsl@, opt_str_view(base_url), path@, query@),
{
    let nc = chars_of(object.object_name.as_str());
    let hv = upper_vec(&nc);
    let handle = string_of(&hv);
    let mut response = base_object("autnum", handle.clone(), base_url, path, "autnum", query, handle.as_str());
    let k = strip_all_as(&hv);
    let number = parse_unsigned_in(&hv, k, hv.len(), 0xffff_ffff_ffff_ffff);
    proof {
        assert(hv@.subrange(k as int, hv@.len() as int) =~= hv@.skip(k as int));
    }
    response.start_autnum = number;
    response.end_autnum = number;
    response.name = opt_string(object.rpsl.get("as-name"));
    response.entities = entity_refs(object, base_url, path);
    let known = vec!["aut-num", "as-name", "admin-c", "tech-c", "zone-c", "source"];
    response.remarks = remarks(object, &known);
    proof {
        assert(known@.map_values(|t: &str| t@) =~= seq!["aut-num"@, "as-name"@, "admin-c"@, "tech-c"@, "zone-c"@, "source"@]);
        assert(response@ =~~= autnum_spec(object.object_name@, object.rpsl@, opt_str_view(base_url), path@, query@));
    }
    response
}

/// The RDAP domain object of a `dns` registry object.
pub fn domain(object: &ObjectRef, base_url: Option<&str>, path: &str, query: &str) -> (r: RdapObject)
    ensures
        r@ == domain_spec(object.object_name@, object.rpsl@, opt_str_view(base_url), path@, query@),
{
    let nc = chars_of(object.object_name.as_str());
    let hv = lower_vec(&nc);
    let handle = string_of(&hv);
    let mut response = base_object("domain", handle.clone(), base_url, path, "domain", query, handle.as_str());
    response.ldh_name = Some(handle.clone());
    response.entities = entity_refs(object, base_url, path);
    let known = vec!["domain", "admin-c", "tech-c", "zone-c", "source"];
    response.remarks = remarks(object, &known);
    proof {
        assert(known@.map_values(|t: &str| t@) =~= seq!["domain"@, "admin-c"@, "tech-c"@, "zone-c"@, "source"@]);
        assert(response@ =~~= domain_spec(object.object_name@, object.rpsl@, opt_str_view(base_url), path@, query@));
    }
    response
}

/// The RDAP entity object of a `person` or `mntner` registry object.
pub fn entity(object: &ObjectRef, base_url: Option<&str>, path: &str, query: &str) -> (r: RdapObject)
    ensures
        r@ == entity_spec(object.object_name@, object.rpsl@, opt_str_view(base_url), path@, query@),
{
    let nc = chars_of(object.object_name.as_str());
    let hv = upper_vec(&nc);
    let handle = string_of(&hv);
    let mut response = base_object("entity", handle.clone(), base_url, path, "entity", query, handle.as_str());
    let full_name = match object.rpsl.get("person") {
        Some(p) => String::from_str(p),
        None => match object.rpsl.get("mntner") {
            Some(m) => String::from_str(m),
            None => handle.clone(),
        },
    };
    response.vcard_array = Some(VCard { full_name });
    let known = vec!["person", "nic-hdl", "mntner", "source"];
    response.remarks = remarks(object, &known);
    proof {
        assert(known@.map_values(|t: &str| t@) =~= seq!["person"@, "nic-hdl"@, "mntner"@, "source"@]);
        assert(response@ =~~= entity_spec(object.object_name@, object.rpsl@, opt_str_view(base_url), path@, query@));
    }
    response
}

/// The first and last addresses of a network, and its IP version, for a
/// registry prefix name (`_` read as `/`) that `ipnet` reads as a network.
pub open spec fn network_range_spec(name: Seq<char>) -> Option<(Seq<char>, Seq<char>, Seq<char>)> {
    match ipnet_parsed(replace_char(name, '_', '/')) {
        Some((IpAddress::V4(a), p)) => Some(
            (
                ip_text(IpAddress::V4(a & mask_v4(p))),
                ip_text(IpAddress::V4(a | !mask_v4(p))),
                "v4"@,
            ),
        ),
        Some((IpAddress::V6(a), p)) => Some(
            (
                ip_text(IpAddress::V6(a & mask_v6(p))),
                ip_text(IpAddress::V6(a | !mask_v6(p))),
                "v6"@,
            ),
        ),
        None => None,
    }
}

/// Whether `x` comes before `y` or is `y`: two addresses of one family.
pub open spec fn addr_le(x: IpAddress, y: IpAddress) -> bool {
    match (x, y) {
        (IpAddress::V4(a), IpAddress::V4(b)) => a <= b,
        (IpAddress::V6(a), IpAddress::V6(b)) => a <= b,
        _ => false,
    }
}

/// Whether `x` is the first address that the prefix `(a, p)` covers.
pub open spec fn is_first_covered(a: IpAddress, p: u8, x: IpAddress) -> bool {
    covers(a, p, x) && forall|y: IpAddress| #[trigger] covers(a, p, y) ==> addr_le(x, y)
}

/// Whether `x` is the last address that the prefix `(a, p)` covers.
pub open spec fn is_last_covered(a: IpAddress, p: u8, x: IpAddress) -> bool {
    covers(a, p, x) && forall|y: IpAddress| #[trigger] covers(a, p, y) ==> addr_le(y, x)
}

/// The range of a network is the first and the last address that its prefix
/// covers, written as `std::net` writes addresses, with the version of its
/// family; a name that `ipnet` does not read as a network has no range.
pub proof fn lemma_network_range_bounds(name: Seq<char>)
    ensures
        match (ipnet_parsed(replace_char(name, '_', '/')), network_range_spec(name)) {
            (Some((a, p)), Some((s, e, v))) => {
                &&& exists|lo: IpAddress, hi: IpAddress|
                    #![trigger is_first_covered(a, p, lo), is_last_covered(a, p, hi)]
                    s == ip_text(lo) && e == ip_text(hi) && is_first_covered(a, p, lo) && is_last_covered(
                        a,
                        p,
                        hi,
                    )
                &&& v == (match a {
                    IpAddress::V4(_) => "v4"@,
                    IpAddress::V6(_) => "v6"@,
                })
            },
            (None, None) => true,
            _ => false,
        },
{
    match ipnet_parsed(replace_char(name, '_', '/')) {
        Some((IpAddress::V4(a), p)) => {
            let m = mask_v4(p);
            let lo = a & m;
            let hi = a | !m;
            assert((lo & m) == (a & m) && (hi & m) == (a & m)) by (bit_vector)
                requires
                    lo == a & m,
                    hi == a | !m,
            ;
            assert forall|y: IpAddress| #[trigger] covers(IpAddress::V4(a), p, y) implies addr_le(
                IpAddress::V4(lo),
                y,
            ) && addr_le(y, IpAddress::V4(hi)) by {
                if let IpAddress::V4(b) = y {
                    assert(lo <= b && b <= hi) by (bit_vector)
                        requires
                            (b & m) == (a & m),
                            lo == a & m,
                            hi == a | !m,
                    ;
                }
            }
            assert(is_first_covered(IpAddress::V4(a), p, IpAddress::V4(lo)));
            assert(is_last_covered(IpAddress::V4(a), p, IpAddress::V4(hi)));
        },
        Some((IpAddress::V6(a), p)) => {
            let m = mask_v6(p);
            let lo = a & m;
            let hi = a | !m;
            assert((lo & m) == (a & m) && (hi & m) == (a & m)) by (bit_vector)
                requires
                    lo == a & m,
                    hi == a | !m,
            ;
            assert forall|y: IpAddress| #[trigger] covers(IpAddress::V6(a), p, y) implies addr_le(
                IpAddress::V6(lo),
                y,
            ) && addr_le(y, IpAddress::V6(hi)) by {
                if let IpAddress::V6(b) = y {
                    assert(lo <= b && b <= hi) by (bit_vector)
                        requires
                            (b & m) == (a & m),
                            lo == a & m,
                            hi == a | !m,
                    ;
                }
            }
            assert(is_first_covered(IpAddress::V6(a), p, IpAddress::V6(lo)));
            assert(is_last_covered(IpAddress::V6(a), p, IpAddress::V6(hi)));
        },
        None => {},
    }
}

/// The first and last addresses of a network, and its IP version.
pub fn network_range(name: &str) -> (r: Option<(String, String, String)>)
    ensures
        match (r, network_range_spec(name@)) {
            (Some((a, b, c)), Some((x, y, z))) => a@ == x && b@ == y && c@ == z,
            (None, None) => true,
            _ => false,
        },
{
    let v = chars_of(name);
    let mut w: Vec<char> = Vec::new();
    let mut k: usize = 0;
    while k < v.len()
        invariant
            k <= v@.len(),
            w@ == replace_char(v@.take(k as int), '_', '/'),
        decreases v@.len() - k,
    {
        w.push(if v[k] == '_' { '/' } else { v[k] });
        k = k + 1;
        proof {
            assert(replace_char(v@.take(k as int), '_', '/') =~= replace_char(v@.take(k - 1), '_', '/').push(
                if v@[k - 1] == '_' { '/' } else { v@[k - 1] },
            ));
        }
    }
    proof {
        assert(v@.take(k as int) =~= v@);
    }
    let cidr = string_of(&w);
    match parse_ipnet(cidr.as_str()) {
        Some((IpAddress::V4(a), p)) => {
            let mask: u32 = if p == 0 { 0 } else { u32::MAX << (32 - p) as u32 };
            let mut first: Vec<char> = Vec::new();
            push_ip(&mut first, IpAddress::V4(a & mask));
            let mut last: Vec<char> = Vec::new();
            push_ip(&mut last, IpAddress::V4(a | !mask));
            Some((string_of(&first), string_of(&last), String::from_str("v4")))
        },
        Some((IpAddress::V6(a), p)) => {
            let mask: u128 = if p == 0 { 0 } else { u128::MAX << (128 - p) as u128 };
            let mut first: Vec<char> = Vec::new();
            push_ip(&mut first, IpAddress::V6(a & mask));
            let mut last: Vec<char> = Vec::new();
            push_ip(&mut last, IpAddress::V6(a | !mask));
            Some((string_of(&first), string_of(&last), String::from_str("v6")))
        },
        None => None,
    }
}

/// The remark that names a registry object: its type, and the value of its
/// primary attribute (the attribute named like the type), else its name.
pub open spec fn primary_remark(t: Seq<char>, name: Seq<char>, fields: Seq<(Seq<char>, Seq<char>)>) -> RemarkView {
    RemarkView {
        title: t,
        description: seq![
            match first_value_from(fields, t, 0) {
                Some(v) => v,
                None => name,
            },
        ],
    }
}

/// The view of a list of registry objects: type, name and attributes.
pub open spec fn objects_view(v: Seq<ObjectRef>) -> Seq<(Seq<char>, Seq<char>, Seq<(Seq<char>, Seq<char>)>)> {
    v.map_values(|o: ObjectRef| (o.object_type@, o.object_name@, o.rpsl@))
}

/// For each object, its primary remark and its descriptions.
pub open spec fn network_remarks(objects: Seq<(Seq<char>, Seq<char>, Seq<(Seq<char>, Seq<char>)>)>) -> Seq<RemarkView>
    decreases objects.len(),
{
    if objects.len() == 0 {
        seq![]
    } else {
        let o = objects.last();
        network_remarks(objects.drop_last()) + seq![primary_remark(o.0, o.1, o.2)] + known_text_remarks(o.2)
    }
}

/// The RDAP IP network object for the registry objects that answer an IP
/// query, most specific first; none when there are none.
pub open spec fn ip_network_spec(
    objects: Seq<(Seq<char>, Seq<char>, Seq<(Seq<char>, Seq<char>)>)>,
    base: Option<Seq<char>>,
    path: Seq<char>,
    query: Seq<char>,
) -> Option<RdapObjectView> {
    if objects.len() == 0 {
        None
    } else {
        let first = objects[0];
        let range = network_range_spec(first.1);
        let b = base_object_spec("ip network"@, first.1, base, path, "ip"@, query, query);
        Some(RdapObjectView {
            start_address: match range { Some(r) => Some(r.0), None => None },
            end_address: match range { Some(r) => Some(r.1), None => None },
            ip_version: match range { Some(r) => Some(r.2), None => None },
            entities: entity_refs_spec(first.2, base, path),
            remarks: network_remarks(objects),
            ..b
        })
    }
}

/// The RDAP IP network object for the registry objects that answer an IP query.
pub fn ip_network(objects: &[ObjectRef], base_url: Option<&str>, path: &str, query: &str) -> (r: Option<RdapObject>)
    ensures
        match (r, ip_network_spec(objects_view(objects@), opt_str_view(base_url), path@, query@)) {
            (Some(a), Some(b)) => a@ == b,
            (None, None) => true,
            _ => false,
        },
{
    if objects.len() == 0 {
        return None;
    }
    let ghost ov = objects_view(objects@);
    let first = &objects[0];
    let mut response = base_object("ip network", first.object_name.clone(), base_url, path, "ip", query, query);
    match network_range(first.object_name.as_str()) {
        Some((start, end, version)) => {
            response.start_address = Some(start);
            response.end_address = Some(end);
            response.ip_version = Some(version);
        },
        None => {},
    }
    response.entities = entity_refs(first, base_url, path);
    let mut rs: Vec<Remark> = Vec::new();
    let mut k: usize = 0;
    proof {
        assert(remarks_view(rs@) =~= seq![]);
        assert(ov.take(0) =~= seq![]);
    }
    while k < objects.len()
        invariant
            k <= objects@.len(),
            ov == objects_view(objects@),
            remarks_view(rs@) == network_remarks(ov.take(k as int)),
        decreases objects@.len() - k,
    {
        let o = &objects[k];
        let primary = match o.rpsl.get(o.object_type.as_str()) {
            Some(v) => String::from_str(v),
            None => o.object_name.clone(),
        };
        let pr = Remark { title: o.object_type.clone(), description: one_string(primary) };
        let ghost before = remarks_view(rs@);
        rs.push(pr);
        let ghost mid = remarks_view(rs@);
        assert(mid =~~= before.push(primary_remark(o.object_type@, o.object_name@, o.rpsl@)));
        push_known_text_remarks(&mut rs, o);
        k = k + 1;
        proof {
            assert(ov.take(k as int).drop_last() =~= ov.take(k - 1));
            assert(ov.take(k as int).last() == (o.object_type@, o.object_name@, o.rpsl@));
            assert(remarks_view(rs@) =~= network_remarks(ov.take(k as int)));
        }
    }
    proof {
        assert(ov.take(k as int) =~= ov);
    }
    response.remarks = rs;
    proof {
        assert(response@ =~~= ip_network_spec(ov, opt_str_view(base_url), path@, query@).unwrap());
    }
    Some(response)
}

} // verus!
