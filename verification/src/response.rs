//! Fixed replies of the WHOIS service.
use vstd::prelude::*;
use crate::text::{push_str, str_eq, string_of};
use crate::types::{all_types, all_types_spec, strs_view};

verus! {

/// Each line followed by a line feed.
pub open spec fn lines_text(v: Seq<Seq<char>>) -> Seq<char>
    decreases v.len(),
{
    if v.len() == 0 {
        seq![]
    } else {
        lines_text(v.drop_last()) + v.last() + seq!['\n']
    }
}

/// The reply to the server information query `-q what`.
pub open spec fn server_info_spec(what: Seq<char>) -> Seq<char> {
    if what == "version"@ {
        "% whois42d v1\n"@
    } else if what == "sources"@ {
        "DN42:3:N:0-0\n"@
    } else if what == "types"@ {
        lines_text(all_types_spec())
    } else {
        "% unknown option "@ + what + seq!['\n']
    }
}

/// The reply to `-q what`: the server version, the registry source, the
/// object types, or a note that the option is unknown.
pub fn server_info(what: &str) -> (r: String)
    ensures
        r@ == server_info_spec(what@),
{
    if str_eq(what, "version") {
        return String::from_str("% whois42d v1\n");
    }
    if str_eq(what, "sources") {
        return String::from_str("DN42:3:N:0-0\n");
    }
    let mut out: Vec<char> = Vec::new();
    if str_eq(what, "types") {
        let types = all_types();
        let mut k: usize = 0;
        while k < types.len()
            invariant
                k <= types@.len(),
                strs_view(types@) == all_types_spec(),
                out@ == lines_text(strs_view(types@).take(k as int)),
            decreases types@.len() - k,
        {
            push_str(&mut out, types[k]);
            out.push('\n');
            k = k + 1;
            proof {
                let t = strs_view(types@);
                assert(t.take(k as int).drop_last() =~= t.take(k - 1));
                assert(t.take(k as int).last() == types@[k - 1]@);
            }
        }
        proof {
            assert(strs_view(types@).take(k as int) =~= strs_view(types@));
        }
        return string_of(&out);
    }
    push_str(&mut out, "% unknown option ");
    push_str(&mut out, what);
    out.push('\n');
    string_of(&out)
}

/// The reply when no object matches a query.
pub fn not_found() -> (r: &'static str)
    ensures
        r@ == "% 404\n"@,
{
    "% 404\n"
}

} // verus!
