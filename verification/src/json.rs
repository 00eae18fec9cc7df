use vstd::prelude::*;
use crate::codec::{json_quoted, json_string_literal};
use crate::text::push_str;

verus! {

pub open spec fn json_bool(b: bool) -> Seq<char> {
    if b { "true"@ } else { "false"@ }
}

/// Appends `s` as a JSON string literal, as serde_json writes it.
pub fn push_json_string(out: &mut String, s: &str)
    ensures
        final(out)@ == old(out)@ + json_quoted(s@),
{
    match json_string_literal(s) {
        Ok(t) => push_str(out, t.as_str()),
        Err(_) => {},
    }
}

/// Appends `true` or `false`.
pub fn push_json_bool(out: &mut String, b: bool)
    ensures
        final(out)@ == old(out)@ + json_bool(b),
{
    if b {
        push_str(out, "true");
    } else {
        push_str(out, "false");
    }
}

} // verus!
