//! RPSL objects: `key: value` attribute lines, as the registry files hold them.
use vstd::prelude::*;
use crate::text::{
    ascii_lower, chars_of, find_char, find_from, is_ws, lemma_find_from, lemma_skip_ws_from,
    lower_char_exec, skip_ws, skip_ws_from, slice_vec, string_of, trim, trim_start, trim_vec,
    push_chars,
};

verus! {

/// A line and the position after its line ending, or after the text.
pub open spec fn line_at(s: Seq<char>, i: int) -> (Seq<char>, int) {
    let e = find_from(s, '\n', i);
    if e >= s.len() {
        (s.subrange(i, s.len() as int), s.len() as int)
    } else {
        let l = s.subrange(i, e);
        (if l.len() > 0 && l.last() == '\r' {
            l.drop_last()
        } else {
            l
        }, e + 1)
    }
}

/// The lines of `s` from position `i` on (`str::lines`): split at `\n` or
/// `\r\n`, with no empty last line for a final line ending.
pub open spec fn lines_from(s: Seq<char>, i: int) -> Seq<Seq<char>>
    decreases s.len() - i,
{
    if i < 0 || i >= s.len() {
        seq![]
    } else {
        let (l, next) = line_at(s, i);
        if next <= i {
            seq![l]
        } else {
            seq![l] + lines_from(s, next)
        }
    }
}

/// `str::lines`.
pub open spec fn lines(s: Seq<char>) -> Seq<Seq<char>> {
    lines_from(s, 0)
}

/// Index of the first character at or after `i` that is not `+`.
pub open spec fn skip_plus_from(s: Seq<char>, i: int) -> int
    decreases s.len() - i,
{
    if 0 <= i < s.len() && s[i] == '+' {
        skip_plus_from(s, i + 1)
    } else {
        i
    }
}

/// The text that a continuation line adds: leading whitespace, then leading
/// `+` signs, then whitespace again are dropped.
pub open spec fn continuation_text(line: Seq<char>) -> Seq<char> {
    let a = trim_start(line);
    trim_start(a.skip(skip_plus_from(a, 0)))
}

/// How one line changes the attributes read so far: comments (`%`) and
/// empty lines are skipped; a line that starts with whitespace or `+`
/// continues the last value on a new line; `key: value` adds an attribute,
/// with the value trimmed; anything else is skipped.
pub open spec fn read_line(fields: Seq<(Seq<char>, Seq<char>)>, line: Seq<char>) -> Seq<
    (Seq<char>, Seq<char>),
> {
    if line.len() == 0 || line[0] == '%' {
        fields
    } else if is_ws(line[0]) || line[0] == '+' {
        if fields.len() == 0 {
            fields
        } else {
            let (k, v) = fields.last();
            fields.drop_last().push((k, v + seq!['\n'] + continuation_text(line)))
        }
    } else {
        let i = find_from(line, ':', 0);
        if i >= line.len() {
            fields
        } else {
            fields.push((line.take(i), trim(line.skip(i + 1))))
        }
    }
}

/// The attributes read from the lines `ls`, in order.
pub open spec fn read_lines(ls: Seq<Seq<char>>) -> Seq<(Seq<char>, Seq<char>)>
    decreases ls.len(),
{
    if ls.len() == 0 {
        seq![]
    } else {
        read_line(read_lines(ls.drop_last()), ls.last())
    }
}

/// The attributes of an RPSL text.
pub open spec fn rpsl_fields(content: Seq<char>) -> Seq<(Seq<char>, Seq<char>)> {
    read_lines(lines(content))
}

/// `str::eq_ignore_ascii_case`.
pub open spec fn eq_ignore_case(a: Seq<char>, b: Seq<char>) -> bool {
    ascii_lower(a) == ascii_lower(b)
}

/// The value of the first attribute from index `i` on whose key is `key`,
/// ignoring ASCII case.
pub open spec fn first_value_from(fields: Seq<(Seq<char>, Seq<char>)>, key: Seq<char>, i: int) -> Option<
    Seq<char>,
>
    decreases fields.len() - i,
{
    if i < 0 || i >= fields.len() {
        None
    } else if eq_ignore_case(fields[i].0, key) {
        Some(fields[i].1)
    } else {
        first_value_from(fields, key, i + 1)
    }
}

/// The values of all attributes whose key is `key`, ignoring ASCII case, in order.
pub open spec fn all_values(fields: Seq<(Seq<char>, Seq<char>)>, key: Seq<char>) -> Seq<Seq<char>>
    decreases fields.len(),
{
    if fields.len() == 0 {
        seq![]
    } else {
        let rest = all_values(fields.drop_last(), key);
        if eq_ignore_case(fields.last().0, key) {
            rest.push(fields.last().1)
        } else {
            rest
        }
    }
}

/// An RPSL object: its attributes in the order of the text.
#[derive(Debug, Clone, PartialEq, Eq)]
pub struct RpslObject {
    pub fields: Vec<(String, String)>,
}

/// The view of a list of attributes.
pub open spec fn fields_view(v: Seq<(String, String)>) -> Seq<(Seq<char>, Seq<char>)> {
    v.map_values(|f: (String, String)| (f.0@, f.1@))
}

impl View for RpslObject {
    type V = Seq<(Seq<char>, Seq<char>)>;

    open spec fn view(&self) -> Seq<(Seq<char>, Seq<char>)> {
        fields_view(self.fields@)
    }
}

/// The view of a list of attributes under construction.
pub open spec fn buf_view(v: Seq<(Vec<char>, Vec<char>)>) -> Seq<(Seq<char>, Seq<char>)> {
    v.map_values(|f: (Vec<char>, Vec<char>)| (f.0@, f.1@))
}

fn skip_plus(v: &[char], i: usize) -> (r: usize)
    requires
        i <= v@.len(),
    ensures
        r == skip_plus_from(v@, i as int),
        i <= r <= v@.len(),
{
    let mut k = i;
    while k < v.len() && v[k] == '+'
        invariant
            i <= k <= v@.len(),
            skip_plus_from(v@, k as int) == skip_plus_from(v@, i as int),
        decreases v@.len() - k,
    {
        k = k + 1;
    }
    k
}

fn continuation_exec(line: &[char]) -> (r: Vec<char>)
    ensures
        r@ == continuation_text(line@),
{
    let a0 = skip_ws(line, 0);
    proof {
        lemma_skip_ws_from(line@, 0);
    }
    let a = slice_vec(line, a0, line.len());
    let b0 = skip_plus(&a, 0);
    let b = slice_vec(&a, b0, a.len());
    let c0 = skip_ws(&b, 0);
    proof {
        lemma_skip_ws_from(b@, 0);
    }
    let r = slice_vec(&b, c0, b.len());
    proof {
        assert(a@ =~= trim_start(line@));
        assert(b@ =~= a@.skip(skip_plus_from(a@, 0)));
        assert(r@ =~= trim_start(b@));
    }
    r
}

/// The line that starts at `i`, and the position after it.
fn line_at_exec(s: &[char], i: usize) -> (r: (Vec<char>, usize))
    requires
        i < s@.len(),
    ensures
        (r.0@, r.1 as int) == line_at(s@, i as int),
        i < r.1 <= s@.len(),
{
    let e = find_char(s, '\n', i);
    proof {
        lemma_find_from(s@, '\n', i as int);
    }
    if e >= s.len() {
        (slice_vec(s, i, s.len()), s.len())
    } else {
        let mut l = slice_vec(s, i, e);
        if l.len() > 0 && l[l.len() - 1] == '\r' {
            l.pop();
            proof {
                assert(l@ =~= s@.subrange(i as int, e as int).drop_last());
            }
        }
        (l, e + 1)
    }
}

fn read_line_exec(fields: &mut Vec<(Vec<char>, Vec<char>)>, line: &[char])
    ensures
        buf_view(final(fields)@) == read_line(buf_view(old(fields)@), line@),
{
    let ghost before = buf_view(fields@);
    if line.len() == 0 || line[0] == '%' {
        return;
    }
    if crate::text::char_is_ws(line[0]) || line[0] == '+' {
        if fields.len() == 0 {
            return;
        }
        let ghost last = fields@.last();
        let (k, mut v) = fields.pop().unwrap();
        assert(k@ == last.0@ && v@ == last.1@);
        assert(buf_view(fields@) =~= before.drop_last());
        v.push('\n');
        let c = continuation_exec(line);
        push_chars(&mut v, &c);
        fields.push((k, v));
        proof {
            assert(buf_view(fields@) =~~= read_line(before, line@));
        }
        return;
    }
    let i = find_char(line, ':', 0);
    proof {
        lemma_find_from(line@, ':', 0);
    }
    if i >= line.len() {
        return;
    }
    let key = slice_vec(line, 0, i);
    let rest = slice_vec(line, i + 1, line.len());
    let value = trim_vec(&rest);
    fields.push((key, value));
    proof {
        assert(key@ =~= line@.take(i as int));
        assert(rest@ =~= line@.skip(i + 1));
        assert(buf_view(fields@) =~~= read_line(before, line@));
    }
}

impl RpslObject {
    /// Reads the attributes of an RPSL text.
    pub fn parse(content: &str) -> (r: Self)
        ensures
            r@ == rpsl_fields(content@),
    {
        let s = chars_of(content);
        let mut fields: Vec<(Vec<char>, Vec<char>)> = Vec::new();
        let mut i: usize = 0;
        let ghost mut done: Seq<Seq<char>> = seq![];
        assert(buf_view(fields@) =~= seq![]);
        while i < s.len()
            invariant
                i <= s@.len(),
                lines(s@) == done + lines_from(s@, i as int),
                buf_view(fields@) == read_lines(done),
            decreases s@.len() - i,
        {
            let (line, next) = line_at_exec(&s, i);
            proof {
                assert(lines_from(s@, i as int) == seq![line@] + lines_from(s@, next as int));
                assert(done.push(line@).drop_last() =~= done);
                assert(done + lines_from(s@, i as int) =~= done.push(line@) + lines_from(
                    s@,
                    next as int,
                ));
                done = done.push(line@);
            }
            read_line_exec(&mut fields, &line);
            i = next;
        }
        proof {
            assert(done =~= lines(s@));
        }
        let mut out: Vec<(String, String)> = Vec::new();
        let mut k: usize = 0;
        while k < fields.len()
            invariant
                k <= fields@.len(),
                fields_view(out@) == buf_view(fields@).take(k as int),
            decreases fields@.len() - k,
        {
            let key = string_of(fields[k].0.as_slice());
            let value = string_of(fields[k].1.as_slice());
            let ghost before = out@;
            out.push((key, value));
            assert(out@ == before.push((key, value)));
            assert(key@ == fields@[k as int].0@);
            assert(value@ == fields@[k as int].1@);
            assert(fields_view(out@) == fields_view(before).push((key@, value@)));
            k = k + 1;
            proof {
                assert(fields_view(out@) =~~= buf_view(fields@).take(k as int));
            }
        }
        proof {
            assert(buf_view(fields@).take(k as int) =~= buf_view(fields@));
        }
        RpslObject { fields: out }
    }

    /// The value of the first attribute named `key`, ignoring ASCII case.
    pub fn get(&self, key: &str) -> (r: Option<&str>)
        ensures
            match (r, first_value_from(self@, key@, 0)) {
                (Some(a), Some(b)) => a@ == b,
                (None, None) => true,
                _ => false,
            },
    {
        let kv = chars_of(key);
        let mut i: usize = 0;
        while i < self.fields.len()
            invariant
                i <= self.fields@.len(),
                first_value_from(self@, key@, i as int) == first_value_from(self@, key@, 0),
                kv@ == key@,
            decreases self.fields@.len() - i,
        {
            let f = chars_of(self.fields[i].0.as_str());
            if eq_ignore_case_exec(&f, &kv) {
                return Some(self.fields[i].1.as_str());
            }
            i = i + 1;
        }
        None
    }

    /// The values of all attributes named `key`, ignoring ASCII case, in order.
    pub fn get_all(&self, key: &str) -> (r: Vec<&str>)
        ensures
            r@.map_values(|t: &str| t@) == all_values(self@, key@),
    {
        let kv = chars_of(key);
        let mut out: Vec<&str> = Vec::new();
        let mut i: usize = 0;
        while i < self.fields.len()
            invariant
                i <= self.fields@.len(),
                kv@ == key@,
                out@.map_values(|t: &str| t@) == all_values(self@.take(i as int), key@),
            decreases self.fields@.len() - i,
        {
            let f = chars_of(self.fields[i].0.as_str());
            let ghost before = out@;
            if eq_ignore_case_exec(&f, &kv) {
                out.push(self.fields[i].1.as_str());
            }
            i = i + 1;
            proof {
                assert(self@.take(i as int).drop_last() =~= self@.take(i - 1));
                assert(out@.map_values(|t: &str| t@) =~= all_values(self@.take(i as int), key@));
            }
        }
        proof {
            assert(self@.take(i as int) =~= self@);
        }
        out
    }
}

/// `eq_ignore_ascii_case` on character buffers.
pub fn eq_ignore_case_exec(a: &[char], b: &[char]) -> (r: bool)
    ensures
        r == eq_ignore_case(a@, b@),
{
    if a.len() != b.len() {
        proof {
            assert(ascii_lower(a@).len() != ascii_lower(b@).len());
        }
        return false;
    }
    let mut k: usize = 0;
    while k < a.len()
        invariant
            k <= a@.len() == b@.len(),
            forall|j: int| 0 <= j < k ==> ascii_lower(a@)[j] == ascii_lower(b@)[j],
        decreases a@.len() - k,
    {
        if lower_char_exec(a[k]) != lower_char_exec(b[k]) {
            proof {
                assert(ascii_lower(a@)[k as int] != ascii_lower(b@)[k as int]);
            }
            return false;
        }
        k = k + 1;
    }
    proof {
        assert(ascii_lower(a@) =~= ascii_lower(b@));
    }
    true
}

} // verus!
