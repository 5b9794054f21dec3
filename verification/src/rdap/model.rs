//! The RDAP response objects (RFC 9083) that this service returns.
//!
//! Field names follow the RDAP JSON members; the JSON encoding itself is the
//! caller's.
use vstd::prelude::*;
use crate::registry::{opt_view, strings_view};

verus! {

/// An RDAP error response.
#[derive(Debug, Clone)]
pub struct RdapError {
    pub error_code: u16,
    pub title: String,
    pub description: Vec<String>,
}

/// An RDAP link.
#[derive(Debug, Clone)]
pub struct Link {
    pub value: String,
    pub rel: String,
    pub href: String,
    pub media_type: String,
}

/// What a link holds.
pub struct LinkView {
    pub value: Seq<char>,
    pub rel: Seq<char>,
    pub href: Seq<char>,
    pub media_type: Seq<char>,
}

impl View for Link {
    type V = LinkView;

    open spec fn view(&self) -> LinkView {
        LinkView { value: self.value@, rel: self.rel@, href: self.href@, media_type: self.media_type@ }
    }
}

/// An RDAP remark or notice.
#[derive(Debug, Clone)]
pub struct Remark {
    pub title: String,
    pub description: Vec<String>,
}

/// What a remark holds.
pub struct RemarkView {
    pub title: Seq<char>,
    pub description: Seq<Seq<char>>,
}

impl View for Remark {
    type V = RemarkView;

    open spec fn view(&self) -> RemarkView {
        RemarkView { title: self.title@, description: strings_view(self.description@) }
    }
}

/// A reference to an entity that has a role for an object.
#[derive(Debug, Clone)]
pub struct EntityRef {
    pub object_class_name: String,
    pub handle: String,
    pub roles: Vec<String>,
    pub links: Vec<Link>,
}

/// What an entity reference holds.
pub struct EntityRefView {
    pub object_class_name: Seq<char>,
    pub handle: Seq<char>,
    pub roles: Seq<Seq<char>>,
    pub links: Seq<LinkView>,
}

pub open spec fn links_view(v: Seq<Link>) -> Seq<LinkView> {
    v.map_values(|l: Link| l@)
}

pub open spec fn remarks_view(v: Seq<Remark>) -> Seq<RemarkView> {
    v.map_values(|r: Remark| r@)
}

impl View for EntityRef {
    type V = EntityRefView;

    open spec fn view(&self) -> EntityRefView {
        EntityRefView {
            object_class_name: self.object_class_name@,
            handle: self.handle@,
            roles: strings_view(self.roles@),
            links: links_view(self.links@),
        }
    }
}

pub open spec fn entities_view(v: Seq<EntityRef>) -> Seq<EntityRefView> {
    v.map_values(|e: EntityRef| e@)
}

/// The vCard of an entity: the `fn` (formatted name) property, which the
/// JSON encoding writes as `["vcard", [["fn", {}, "text", <name>]]]`.
#[derive(Debug, Clone)]
pub struct VCard {
    pub full_name: String,
}

/// An RDAP object (autnum, domain, entity or IP network).
#[derive(Debug, Clone)]
pub struct RdapObject {
    pub rdap_conformance: Vec<String>,
    pub object_class_name: String,
    pub handle: String,
    pub ldh_name: Option<String>,
    pub name: Option<String>,
    pub links: Vec<Link>,
    pub entities: Vec<EntityRef>,
    pub start_autnum: Option<u64>,
    pub end_autnum: Option<u64>,
    pub start_address: Option<String>,
    pub end_address: Option<String>,
    pub ip_version: Option<String>,
    pub remarks: Vec<Remark>,
    pub notices: Vec<Remark>,
    pub status: Vec<String>,
    pub vcard_array: Option<VCard>,
}

/// What an RDAP object holds.
pub struct RdapObjectView {
    pub rdap_conformance: Seq<Seq<char>>,
    pub object_class_name: Seq<char>,
    pub handle: Seq<char>,
    pub ldh_name: Option<Seq<char>>,
    pub name: Option<Seq<char>>,
    pub links: Seq<LinkView>,
    pub entities: Seq<EntityRefView>,
    pub start_autnum: Option<u64>,
    pub end_autnum: Option<u64>,
    pub start_address: Option<Seq<char>>,
    pub end_address: Option<Seq<char>>,
    pub ip_version: Option<Seq<char>>,
    pub remarks: Seq<RemarkView>,
    pub notices: Seq<RemarkView>,
    pub status: Seq<Seq<char>>,
    pub vcard_name: Option<Seq<char>>,
}

impl View for RdapObject {
    type V = RdapObjectView;

    open spec fn view(&self) -> RdapObjectView {
        RdapObjectView {
            rdap_conformance: strings_view(self.rdap_conformance@),
            object_class_name: self.object_class_name@,
            handle: self.handle@,
            ldh_name: opt_view(self.ldh_name),
            name: opt_view(self.name),
            links: links_view(self.links@),
            entities: entities_view(self.entities@),
            start_autnum: self.start_autnum,
            end_autnum: self.end_autnum,
            start_address: opt_view(self.start_address),
            end_address: opt_view(self.end_address),
            ip_version: opt_view(self.ip_version),
            remarks: remarks_view(self.remarks@),
            notices: remarks_view(self.notices@),
            status: strings_view(self.status@),
            vcard_name: match self.vcard_array {
                Some(v) => Some(v.full_name@),
                None => None,
            },
        }
    }
}

} // verus!
