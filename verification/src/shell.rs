//! Messages of the host shell session.
use vstd::prelude::*;

use crate::json::{
    json_text_str_member, json_text_str_member_of, json_text_u64_member, json_text_u64_member_of,
};
use crate::text::{chars_eq, chars_of, string_of, trim, trim_vec};

verus! {

/// A terminal resize request: `{"type":"resize","cols":C,"rows":R}` (read after trimming),
/// with both sizes non-zero once cut to 16 bits.
pub open spec fn spec_parse_resize(text: Seq<char>) -> Option<(u16, u16)> {
    let t = trim(text);
    if json_text_str_member(t, "type"@) == Some("resize"@) {
        match (json_text_u64_member(t, "cols"@), json_text_u64_member(t, "rows"@)) {
            (Some(c), Some(r)) => if c as u16 == 0 || r as u16 == 0 {
                None
            } else {
                Some((c as u16, r as u16))
            },
            _ => None,
        }
    } else {
        None
    }
}

pub fn parse_resize(text: &str) -> (r: Option<(u16, u16)>)
    ensures
        r == spec_parse_resize(text@),
{
    let t = string_of(trim_vec(chars_of(text).as_slice()).as_slice());
    let kind = json_text_str_member_of(t.as_str(), "type");
    let is_resize = match &kind {
        Some(k) => chars_eq(chars_of(k.as_str()).as_slice(), chars_of("resize").as_slice()),
        None => false,
    };
    if !is_resize {
        return None;
    }
    let cols = json_text_u64_member_of(t.as_str(), "cols");
    let rows = json_text_u64_member_of(t.as_str(), "rows");
    match (cols, rows) {
        (Some(c), Some(r)) => {
            let c16 = c as u16;
            let r16 = r as u16;
            if c16 == 0 || r16 == 0 {
                None
            } else {
                Some((c16, r16))
            }
        },
        _ => None,
    }
}

} // verus!
