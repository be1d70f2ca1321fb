//! The decisions the HTTP middleware makes about request ids and error bodies.

use crate::app_config::{append_decimal, decimal};
use crate::requests::str_equals;
use vstd::prelude::*;
use vstd::string::*;

verus! {

/// Longest request id a caller may supply, in bytes.
pub const MAX_REQUEST_ID_BYTES: usize = 128;

/// The caller's request id is kept when it is readable text of 1 to 128 bytes.
pub open spec fn keeps_request_id(supplied: Option<&str>) -> bool {
    match supplied {
        Some(v) => 0 < v.spec_bytes().len() <= MAX_REQUEST_ID_BYTES,
        None => false,
    }
}

/// The request id the caller supplied, when it is kept; `None` otherwise (then one is
/// generated).
pub fn accepted_request_id(supplied: Option<&str>) -> (r: Option<String>)
    ensures
        keeps_request_id(supplied) ==> (r matches Some(id) && id@ == supplied->0@),
        !keeps_request_id(supplied) ==> r is None,
{
    match supplied {
        Some(v) => {
            let n = v.as_bytes().len();
            if n > 0 && n <= MAX_REQUEST_ID_BYTES {
                Some(v.to_owned())
            } else {
                None
            }
        },
        None => None,
    }
}

/// A generated request id: `pad-`, the process number, `-`, then the sequence number.
pub fn generated_request_id(process: u32, sequence: u64) -> (r: String)
    ensures
        r@ == "pad-"@ + decimal(process as nat) + "-"@ + decimal(sequence as nat),
{
    let mut out = String::from_str("pad-");
    append_decimal(&mut out, process as u128);
    out.append("-");
    append_decimal(&mut out, sequence as u128);
    out
}

/// The media type of structured (JSON) bodies.
pub open spec fn json_media_type() -> Seq<char> {
    "application/json"@
}

/// `content_type` names a JSON body: it starts with `application/json`.
pub open spec fn is_json_content(content_type: Seq<char>) -> bool {
    content_type.len() >= json_media_type().len() && content_type.subrange(0, json_media_type().len() as int)
        == json_media_type()
}

fn starts_with_json(content_type: &str) -> (r: bool)
    ensures
        r == is_json_content(content_type@),
{
    proof {
        reveal_strlit("application/json");
    }
    let n = content_type.unicode_len();
    if n < 16 {
        return false;
    }
    let prefix = content_type.substring_char(0, 16);
    str_equals(prefix, "application/json")
}

/// An error response (status 400 to 599) whose body is not JSON (its content type,
/// when readable, does not start with `application/json`) gets a structured body.
pub fn needs_structured_error(status: u16, content_type: Option<&str>) -> (r: bool)
    ensures
        r == (400 <= status <= 599 && !(content_type matches Some(ct) && is_json_content(ct@))),
{
    if status < 400 || status > 599 {
        return false;
    }
    match content_type {
        Some(ct) => !starts_with_json(ct),
        None => true,
    }
}

} // verus!
