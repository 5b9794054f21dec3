//! The base URL under which RDAP resources are published.
use vstd::prelude::*;
use crate::text::{
    chars_of, contains_char, ends_with, lemma_trim_end_pos, push_chars, starts_with,
    starts_with_str, slice_vec, str_eq, string_of, trim_end_char, trim_end_char_vec,
};

verus! {

/// The URL path prefix of the RDAP service: empty for `/`, else the path
/// without trailing slashes.
pub open spec fn path_prefix_spec(path: Seq<char>) -> Seq<char> {
    if path == "/"@ {
        seq![]
    } else {
        trim_end_char(path, '/')
    }
}

/// The base URL built on an external base: the base without trailing
/// slashes, followed by the path prefix unless the base already ends with it.
pub open spec fn external_base_spec(base: Seq<char>, path: Seq<char>) -> Seq<char> {
    let b = trim_end_char(base, '/');
    let p = path_prefix_spec(path);
    if p.len() == 0 || ends_with(b, p) {
        b
    } else {
        b + p
    }
}

/// The base URL of RDAP links: built on the configured base URL when there
/// is a non-empty one, else the path prefix alone.
pub open spec fn rdap_base_spec(base: Option<Seq<char>>, path: Seq<char>) -> Seq<char> {
    match base {
        Some(b) => if b.len() > 0 {
            external_base_spec(b, path)
        } else {
            path_prefix_spec(path)
        },
        None => path_prefix_spec(path),
    }
}

/// An absolute `http` or `https` URL with a host, and no query or fragment.
pub open spec fn is_absolute_http_url_spec(v: Seq<char>) -> bool {
    let rest = if starts_with(v, "https://"@) {
        Some(v.skip(8))
    } else if starts_with(v, "http://"@) {
        Some(v.skip(7))
    } else {
        None
    };
    &&& !v.contains('?')
    &&& !v.contains('#')
    &&& rest matches Some(r) && r.len() > 0 && r[0] != '/'
}

/// Why no absolute base URL can be built.
#[derive(Debug, Clone, Copy, PartialEq, Eq, Structural)]
pub enum BaseUrlError {
    /// No base URL was configured.
    Missing,
    /// The configured base URL is not an absolute `http(s)` URL.
    NotAbsolute,
}

/// The message that explains a base URL error.
pub open spec fn base_url_message(e: BaseUrlError) -> Seq<char> {
    match e {
        BaseUrlError::Missing => "bootstrap registry requires an absolute --rdap-base-url"@,
        BaseUrlError::NotAbsolute => "--rdap-base-url must be an absolute http(s) URL"@,
    }
}

/// Why the configured base URL gives no absolute base URL, if it does not.
pub open spec fn base_url_problem(base: Option<Seq<char>>) -> Option<BaseUrlError> {
    match base {
        Some(b) if b.len() > 0 => if is_absolute_http_url_spec(b) {
            None
        } else {
            Some(BaseUrlError::NotAbsolute)
        },
        _ => Some(BaseUrlError::Missing),
    }
}

impl BaseUrlError {
    /// The message that explains the error.
    pub fn message(&self) -> (r: &'static str)
        ensures
            r@ == base_url_message(*self),
    {
        match self {
            BaseUrlError::Missing => "bootstrap registry requires an absolute --rdap-base-url",
            BaseUrlError::NotAbsolute => "--rdap-base-url must be an absolute http(s) URL",
        }
    }
}

pub open spec fn opt_str_view(o: Option<&str>) -> Option<Seq<char>> {
    match o {
        Some(s) => Some(s@),
        None => None,
    }
}

/// The path prefix of the RDAP service.
pub fn path_prefix(path: &str) -> (r: Vec<char>)
    ensures
        r@ == path_prefix_spec(path@),
{
    if str_eq(path, "/") {
        Vec::new()
    } else {
        let v = chars_of(path);
        trim_end_char_vec(&v, '/')
    }
}

/// The base URL built on an external base.
pub fn external_rdap_base_url(base_url: &str, path: &str) -> (r: Vec<char>)
    ensures
        r@ == external_base_spec(base_url@, path@),
{
    let bv = chars_of(base_url);
    let mut b = trim_end_char_vec(&bv, '/');
    let p = path_prefix(path);
    if p.len() == 0 {
        return b;
    }
    let ends = if p.len() <= b.len() {
        crate::text::matches_at(&b, b.len() - p.len(), &p)
    } else {
        false
    };
    proof {
        if p@.len() <= b@.len() {
            assert(b@.subrange(b@.len() - p@.len(), b@.len() as int) =~= b@.skip(
                b@.len() - p@.len(),
            ));
        }
    }
    if ends {
        b
    } else {
        push_chars(&mut b, &p);
        b
    }
}

/// The base URL of RDAP links.
pub fn rdap_base_url(base_url: Option<&str>, path: &str) -> (r: String)
    ensures
        r@ == rdap_base_spec(opt_str_view(base_url), path@),
{
    match base_url {
        Some(b) => {
            let bv = chars_of(b);
            if bv.len() > 0 {
                let r = external_rdap_base_url(b, path);
                return string_of(&r);
            }
        },
        None => {},
    }
    let r = path_prefix(path);
    string_of(&r)
}

/// Whether `value` is an absolute `http(s)` URL with a host.
pub fn is_absolute_http_url(value: &str) -> (r: bool)
    ensures
        r == is_absolute_http_url_spec(value@),
{
    let v = chars_of(value);
    if contains_char(&v, '?') || contains_char(&v, '#') {
        return false;
    }
    let start = if starts_with_str(&v, "https://") {
        proof {
            reveal_strlit("https://");
        }
        8
    } else if starts_with_str(&v, "http://") {
        proof {
            reveal_strlit("http://");
        }
        7
    } else {
        return false;
    };
    start < v.len() && v[start] != '/'
}

/// The base URL for bootstrap registry files, which must be absolute.
pub fn absolute_rdap_base_url(base_url: Option<&str>, path: &str) -> (r: Result<String, BaseUrlError>)
    ensures
        match opt_str_view(base_url) {
            Some(b) if b.len() > 0 => if is_absolute_http_url_spec(b) {
                r matches Ok(s) && s@ == external_base_spec(b, path@)
            } else {
                r == Err::<String, BaseUrlError>(BaseUrlError::NotAbsolute)
            },
            _ => r == Err::<String, BaseUrlError>(BaseUrlError::Missing),
        },
{
    let b = match base_url {
        Some(b) => b,
        None => {
            return Err(BaseUrlError::Missing);
        },
    };
    let bv = chars_of(b);
    if bv.len() == 0 {
        return Err(BaseUrlError::Missing);
    }
    if !is_absolute_http_url(b) {
        return Err(BaseUrlError::NotAbsolute);
    }
    let r = external_rdap_base_url(b, path);
    Ok(string_of(&r))
}

} // verus!
