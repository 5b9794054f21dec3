//! The WHOIS wire protocol: one query line per connection.
use vstd::prelude::*;
use vstd::utf8::{valid_utf8, decode_utf8};
use crate::text::{chars_of, trim_vec, trim, utf8_len, char_width, char_width_exec, slice_vec, string_of};

verus! {

/// Longest query line, in bytes, that the server answers.
pub const MAX_QUERY_LEN: usize = 1024;

/// Longest query text, in bytes, that goes into the log unshortened.
pub const MAX_LOGGED_QUERY_LEN: usize = 80;

/// Why a received line is not a query.
#[derive(Debug, Clone, Copy, PartialEq, Eq, Structural)]
pub enum QueryLineError {
    TooLong,
    Empty,
    InvalidUtf8,
}

/// Whether `n` bytes of the UTF-8 encoding of `t` end on a character boundary.
pub open spec fn is_byte_boundary(t: Seq<char>, n: nat) -> bool {
    exists|k: int| 0 <= k <= t.len() && #[trigger] utf8_len(t.take(k)) == n
}

/// The number of characters whose encoding takes exactly `n` bytes.
pub open spec fn chars_in_bytes(t: Seq<char>, n: nat) -> int {
    choose|k: int| 0 <= k <= t.len() && #[trigger] utf8_len(t.take(k)) == n
}

/// The text under which a query is logged: the trimmed query, or its first
/// `MAX_LOGGED_QUERY_LEN` bytes followed by `...` when it is longer.
pub open spec fn log_text(q: Seq<char>) -> Seq<char> {
    let t = trim(q);
    if utf8_len(t) <= MAX_LOGGED_QUERY_LEN {
        t
    } else {
        t.take(chars_in_bytes(t, MAX_LOGGED_QUERY_LEN as nat)) + seq!['.', '.', '.']
    }
}

pub proof fn lemma_utf8_len_take_step(t: Seq<char>, k: int)
    requires
        0 <= k < t.len(),
    ensures
        utf8_len(t.take(k + 1)) == utf8_len(t.take(k)) + char_width(t[k]),
{
    assert(t.take(k + 1).drop_last() =~= t.take(k));
}

pub proof fn lemma_utf8_len_take_strict(t: Seq<char>, a: int, b: int)
    requires
        0 <= a < b <= t.len(),
    ensures
        utf8_len(t.take(a)) < utf8_len(t.take(b)),
    decreases b - a,
{
    lemma_utf8_len_take_step(t, b - 1);
    if a < b - 1 {
        lemma_utf8_len_take_strict(t, a, b - 1);
    }
}

pub proof fn lemma_utf8_len_full(t: Seq<char>)
    ensures
        t.take(t.len() as int) == t,
{
    assert(t.take(t.len() as int) =~= t);
}

/// The text to log for `query`.
///
/// Like slicing a `str` by bytes, this needs the cut to fall on a character
/// boundary when the trimmed query is longer than `MAX_LOGGED_QUERY_LEN` bytes.
pub fn query_log_text(query: &str) -> (r: String)
    requires
        utf8_len(trim(query@)) > MAX_LOGGED_QUERY_LEN ==> is_byte_boundary(
            trim(query@),
            MAX_LOGGED_QUERY_LEN as nat,
        ),
    ensures
        r@ == log_text(query@),
{
    let v = chars_of(query);
    let t = trim_vec(&v);
    let mut k: usize = 0;
    let mut total: usize = 0;
    while k < t.len() && total < MAX_LOGGED_QUERY_LEN
        invariant
            k <= t@.len(),
            total == utf8_len(t@.take(k as int)),
            k > 0 ==> utf8_len(t@.take(k - 1)) < MAX_LOGGED_QUERY_LEN,
            total <= MAX_LOGGED_QUERY_LEN + 4,
        decreases t@.len() - k,
    {
        proof {
            lemma_utf8_len_take_step(t@, k as int);
        }
        total = total + char_width_exec(t[k]);
        k = k + 1;
    }
    proof {
        lemma_utf8_len_full(t@);
    }
    if total < MAX_LOGGED_QUERY_LEN || (k == t.len() && total == MAX_LOGGED_QUERY_LEN) {
        return string_of(&t);
    }
    proof {
        if k == t@.len() {
            lemma_utf8_len_take_step(t@, k - 1);
            assert(t@.take(k as int) == t@);
        }
        if k < t@.len() {
            lemma_utf8_len_take_strict(t@, k as int, t@.len() as int);
        }
        assert(utf8_len(t@) > MAX_LOGGED_QUERY_LEN);
        assert(is_byte_boundary(t@, MAX_LOGGED_QUERY_LEN as nat));
        let j = chars_in_bytes(t@, MAX_LOGGED_QUERY_LEN as nat);
        assert(0 <= j <= t@.len() && utf8_len(t@.take(j)) == MAX_LOGGED_QUERY_LEN);
        if j < k {
            if j < k - 1 {
                lemma_utf8_len_take_strict(t@, j, k - 1);
            }
        } else if j > k {
            lemma_utf8_len_take_strict(t@, k as int, j);
        }
        assert(j == k);
    }
    let mut out = slice_vec(&t, 0, k);
    out.push('.');
    out.push('.');
    out.push('.');
    string_of(&out)
}

/// Index of the first `\n` at or after `i`, or the length.
pub open spec fn newline_from(s: Seq<u8>, i: int) -> int
    decreases s.len() - i,
{
    if i >= s.len() {
        s.len() as int
    } else if s[i] == 10 {
        i
    } else {
        newline_from(s, i + 1)
    }
}

/// The bytes of the first line of `input`, without its line ending
/// (`\n` or `\r\n`).
pub open spec fn first_line(input: Seq<u8>) -> Seq<u8> {
    let line = input.take(newline_from(input, 0));
    if line.len() > 0 && line.last() == 13 {
        line.drop_last()
    } else {
        line
    }
}

/// How `read_query_line` answers `input`.
pub open spec fn query_line_result(input: Seq<u8>) -> Result<Seq<char>, QueryLineError> {
    let line = first_line(input);
    if line.len() > MAX_QUERY_LEN {
        Err(QueryLineError::TooLong)
    } else if line.len() == 0 {
        Err(QueryLineError::Empty)
    } else if !valid_utf8(line) {
        Err(QueryLineError::InvalidUtf8)
    } else {
        Ok(decode_utf8(line))
    }
}

/// `String::from_utf8`: a string exactly when the bytes are valid UTF-8, and
/// then the characters they encode.
#[verifier::external_body]
fn string_from_utf8(bytes: Vec<u8>) -> (r: Option<String>)
    ensures
        r is Some <==> valid_utf8(bytes@),
        r matches Some(s) ==> s@ == decode_utf8(bytes@),
{
    String::from_utf8(bytes).ok()
}

/// Reads the query from the bytes received on a connection: the first line,
/// without its line ending, as text.
pub fn read_query_line(input: &[u8]) -> (r: Result<String, QueryLineError>)
    ensures
        match (r, query_line_result(input@)) {
            (Ok(s), Ok(t)) => s@ == t,
            (Err(e), Err(f)) => e == f,
            _ => false,
        },
{
    let mut end: usize = 0;
    while end < input.len() && input[end] != 10u8
        invariant
            end <= input@.len(),
            newline_from(input@, end as int) == newline_from(input@, 0),
        decreases input@.len() - end,
    {
        end = end + 1;
    }
    if end > 0 && input[end - 1] == 13u8 {
        end = end - 1;
    }
    if end > MAX_QUERY_LEN {
        return Err(QueryLineError::TooLong);
    }
    if end == 0 {
        return Err(QueryLineError::Empty);
    }
    let mut line: Vec<u8> = Vec::new();
    let mut k: usize = 0;
    while k < end
        invariant
            k <= end <= input@.len(),
            line@ == input@.take(k as int),
        decreases end - k,
    {
        line.push(input[k]);
        k = k + 1;
    }
    proof {
        assert(line@ =~= first_line(input@));
    }
    match string_from_utf8(line) {
        Some(s) => Ok(s),
        None => Err(QueryLineError::InvalidUtf8),
    }
}

/// The reply to a line that is not a query.
pub fn rejection_text(err: QueryLineError) -> (r: &'static str)
    ensures
        r@ == (if err == QueryLineError::TooLong {
            "% error: query too long\n"@
        } else {
            "% error: invalid query\n"@
        }),
{
    match err {
        QueryLineError::TooLong => "% error: query too long\n",
        _ => "% error: invalid query\n",
    }
}

/// What a connection does with the bytes it received: look up the query, or
/// send the reply to a line that is no query.
pub enum LineStep {
    Query(String),
    Reply(&'static str),
}

/// What to do with the bytes received on a connection: the query of its
/// first line, or the reply that refuses it.
pub fn connection_step(received: &[u8]) -> (r: LineStep)
    ensures
        match (r, query_line_result(received@)) {
            (LineStep::Query(q), Ok(t)) => q@ == t,
            (LineStep::Reply(text), Err(e)) => text@ == (if e == QueryLineError::TooLong {
                "% error: query too long\n"@
            } else {
                "% error: invalid query\n"@
            }),
            _ => false,
        },
{
    match read_query_line(received) {
        Ok(q) => LineStep::Query(q),
        Err(e) => LineStep::Reply(rejection_text(e)),
    }
}

} // verus!
