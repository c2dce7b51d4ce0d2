//! Decision logic of the rate-limited fetch client.
//!
//! The HTTP transport itself lives outside the library; it reports each
//! outcome as a `FetchError` and hands header values in as plain strings.
//! The library decides what is retried, how long the politeness throttle
//! must still wait, and which storage extension a content-type implies.

use vstd::prelude::*;

use crate::text::{cut_at, first_pos, lemma_first_pos, find_char};

verus! {

/// Why a fetch failed.
///
/// `ConnectionFailure` covers network-level trouble (DNS, connect,
/// timeout) and is the only retried case; `HttpStatusFailure` carries the
/// non-2xx status; `ContentTypeMissing` marks a response whose storage
/// extension cannot be inferred.
#[derive(Debug, Clone, Copy, PartialEq, Eq, Structural)]
pub enum FetchError {
    ConnectionFailure,
    HttpStatusFailure(u16),
    ContentTypeMissing,
}

/// Only connection-level failures are eligible for retry: a non-2xx
/// status or a malformed header will not change on a second attempt.
pub fn should_retry(e: &FetchError) -> (r: bool)
    ensures
        r == (e is ConnectionFailure),
{
    match e {
        FetchError::ConnectionFailure => true,
        _ => false,
    }
}

/// How long the politeness throttle must still wait before the next
/// request, given the time elapsed since the previous one.
pub fn remaining_wait(elapsed_ms: u64, wait_ms: u64) -> (r: u64)
    ensures
        r == if elapsed_ms < wait_ms {
            wait_ms - elapsed_ms
        } else {
            0
        },
{
    if elapsed_ms < wait_ms {
        wait_ms - elapsed_ms
    } else {
        0
    }
}

/// The storage extension a content-type header value implies: the part
/// after the first `/` of the media type (parameters after `;` ignored),
/// or nothing when the value has no `/` there.
pub open spec fn extension_spec(s: Seq<char>) -> Option<Seq<char>> {
    let head = cut_at(s, ';');
    let p = first_pos(head, '/');
    if p == head.len() {
        None
    } else {
        Some(head.skip(p + 1))
    }
}

/// Infer the storage extension from a content-type header value.
pub fn get_file_extention(content_type: &str) -> (r: Option<String>)
    ensures
        match r {
            Some(ext) => extension_spec(content_type@) == Some(ext@),
            None => extension_spec(content_type@) is None,
        },
{
    let p1 = find_char(content_type, ';');
    proof {
        lemma_first_pos(content_type@, ';');
    }
    let head = content_type.substring_char(0, p1);
    assert(head@ =~= cut_at(content_type@, ';'));
    let m = head.unicode_len();
    let p2 = find_char(head, '/');
    proof {
        lemma_first_pos(head@, '/');
    }
    if p2 == m {
        return None;
    }
    let ext = head.substring_char(p2 + 1, m);
    assert(ext@ =~= head@.skip(p2 + 1));
    Some(String::from_str(ext))
}

} // verus!
