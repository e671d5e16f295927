use vstd::prelude::*;
use crate::syntax::{all_digits, digits_value, same_text};
use crate::text::{
    chars_of, contains_seq, decimal, decimal_string, has_infix, has_prefix, slice_chars,
    starts_with, string_of, trim, trim_chars,
};

verus! {

/// The number of content-modified retries of one request.
pub const MAX_RETRIES: u32 = 5;

/// The back-off unit between retries, in milliseconds.
pub const BACKOFF_MS: u64 = 500;

/// The header that precedes every message body.
pub open spec fn header_prefix() -> Seq<char> {
    "Content-Length: "@
}

/// A message framed for the backend: `Content-Length: N\r\n\r\n` and the body, where N is the
/// body's length in bytes.
pub open spec fn framed(body_bytes: nat, body: Seq<char>) -> Seq<char> {
    header_prefix() + decimal(body_bytes) + "\r\n\r\n"@ + body
}

fn append(s: &mut String, t: &str)
    ensures
        final(s)@ == old(s)@ + t@,
{
    s.append(t);
}

/// Frames a message body for the backend.
pub fn frame_message(body: &str) -> (r: String)
    ensures
        r@ == framed(body.len() as nat, body@),
{
    let n = body.len();
    let mut s = String::new();
    append(&mut s, "Content-Length: ");
    append(&mut s, decimal_string(n as u64).as_str());
    append(&mut s, "\r\n\r\n");
    append(&mut s, body);
    assert((n as u64) as nat == n as nat);
    assert(s@ =~= framed(n as nat, body@));
    s
}

/// The `usize` that `s` writes: an optional `+` and decimal digits, within range.
pub open spec fn usize_of(s: Seq<char>) -> Option<usize> {
    let v = if s.len() > 0 && s[0] == '+' && all_digits(s.drop_first()) {
        Some(digits_value(s.drop_first()))
    } else if all_digits(s) {
        Some(digits_value(s))
    } else {
        None
    };
    match v {
        Some(x) => if x <= usize::MAX {
            Some(x as usize)
        } else {
            None
        },
        None => None,
    }
}

/// Relies on `str::parse::<usize>`: an optional `+` and decimal digits, within range.
#[verifier::external_body]
fn parse_usize(s: &str) -> (r: Option<usize>)
    ensures
        r == usize_of(s@),
{
    s.parse::<usize>().ok()
}

/// The length that a header line announces, if it is a well-formed `Content-Length` line.
pub open spec fn announced_length(line: Seq<char>) -> Option<usize> {
    if starts_with(line, header_prefix()) {
        usize_of(trim(line.subrange(header_prefix().len() as int, line.len() as int)))
    } else {
        None
    }
}

/// Reads the body length from a header line: `Content-Length: ` and a number, white space
/// around the number allowed.
pub fn content_length(line: &str) -> (r: Option<usize>)
    ensures
        r == announced_length(line@),
{
    proof {
        reveal_strlit("Content-Length: ");
    }
    let l = chars_of(line);
    let prefix = chars_of("Content-Length: ");
    if !has_prefix(&l, &prefix) {
        return None;
    }
    let rest = trim_chars(&slice_chars(&l, prefix.len(), l.len()));
    parse_usize(string_of(rest.as_slice()).as_str())
}

/// Whether a backend error says that the content was modified while it was working.
pub open spec fn is_content_modified(error: Seq<char>) -> bool {
    contains_seq(error, "content modified"@) || contains_seq(error, "-32801"@)
}

/// The pause before retrying a request whose attempt number `attempt` (from 1) failed with
/// `error`: 500 ms times the attempt for a content-modified error, up to five retries;
/// `None` where the error surfaces.
pub open spec fn retry_pause(attempt: nat, error: Seq<char>) -> Option<nat> {
    if 1 <= attempt <= MAX_RETRIES && is_content_modified(error) {
        Some((BACKOFF_MS * attempt) as nat)
    } else {
        None
    }
}

/// Decides whether a failed request is retried, and after how many milliseconds.
pub fn retry_delay(attempt: u32, error: &str) -> (r: Option<u64>)
    ensures
        match r {
            Some(ms) => retry_pause(attempt as nat, error@) == Some(ms as nat),
            None => retry_pause(attempt as nat, error@) is None,
        },
{
    let e = chars_of(error);
    if 1 <= attempt && attempt <= MAX_RETRIES && (has_infix(&e, &chars_of("content modified"))
        || has_infix(&e, &chars_of("-32801"))) {
        Some(BACKOFF_MS * attempt as u64)
    } else {
        None
    }
}

/// How a reply ended.
#[derive(Debug, Clone, Copy, PartialEq, Eq, Structural)]
pub enum ReplyOutcome {
    /// The reply carries an error object.
    Failed,
    /// The reply carries a result.
    Succeeded,
    /// The reply carries neither; it counts as a null result.
    Empty,
}

/// What an incoming message is.
#[derive(Debug, Clone, Copy, PartialEq, Eq, Structural)]
pub enum Incoming {
    /// A reply to the request with this id.
    Reply { id: i64, outcome: ReplyOutcome },
    /// A diagnostics notification for one document.
    Diagnostics,
    /// Anything else.
    Ignored,
}

/// The diagnostics notification method.
pub open spec fn diagnostics_method() -> Seq<char> {
    "textDocument/publishDiagnostics"@
}

/// A message with an integer id is a reply, failed when it has an error and otherwise
/// successful when it has a result; without an id it matters only as a diagnostics
/// notification.
pub open spec fn incoming_kind(
    id: Option<i64>,
    has_error: bool,
    has_result: bool,
    method: Option<Seq<char>>,
) -> Incoming {
    match id {
        Some(id) => Incoming::Reply {
            id,
            outcome: if has_error {
                ReplyOutcome::Failed
            } else if has_result {
                ReplyOutcome::Succeeded
            } else {
                ReplyOutcome::Empty
            },
        },
        None => if method == Some(diagnostics_method()) {
            Incoming::Diagnostics
        } else {
            Incoming::Ignored
        },
    }
}

/// Sorts an incoming message by its id, its error and result fields, and its method.
pub fn classify_message(id: Option<i64>, has_error: bool, has_result: bool, method: Option<&str>) -> (r:
    Incoming)
    ensures
        r == incoming_kind(
            id,
            has_error,
            has_result,
            match method {
                Some(m) => Some(m@),
                None => None,
            },
        ),
{
    match id {
        Some(id) => Incoming::Reply {
            id,
            outcome: if has_error {
                ReplyOutcome::Failed
            } else if has_result {
                ReplyOutcome::Succeeded
            } else {
                ReplyOutcome::Empty
            },
        },
        None => match method {
            Some(m) => if same_text(m, "textDocument/publishDiagnostics") {
                Incoming::Diagnostics
            } else {
                Incoming::Ignored
            },
            None => Incoming::Ignored,
        },
    }
}

} // verus!
