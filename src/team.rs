//! Team rows: `name,abbreviation,#rrggbb`.

use crate::text::{fields, split_fields, strip_hashes, trim_hashes};
use hex::FromHex;
use vstd::prelude::*;

verus! {

pub open spec fn is_hex_digit(c: char) -> bool {
    ('0' <= c <= '9') || ('a' <= c <= 'f') || ('A' <= c <= 'F')
}

pub open spec fn hex_value(c: char) -> int {
    if '0' <= c <= '9' {
        c as int - '0' as int
    } else if 'a' <= c <= 'f' {
        c as int - 'a' as int + 10
    } else {
        c as int - 'A' as int + 10
    }
}

/// `t` is six hex digits.
pub open spec fn is_hex_color(t: Seq<char>) -> bool {
    t.len() == 6 && forall|i: int| 0 <= i < 6 ==> is_hex_digit(#[trigger] t[i])
}

/// Byte `k` of the colour that the hex digits `t` write, high digit first.
pub open spec fn color_byte(t: Seq<char>, k: int) -> int {
    hex_value(t[2 * k]) * 16 + hex_value(t[2 * k + 1])
}

/// Relies on hex's `FromHex` for `[u8; 3]`: it accepts exactly six hex
/// digits of either case (as bytes, so no other character), two to a byte,
/// high digit first.
#[verifier::external_body]
fn decode_color(t: &str) -> (r: Option<[u8; 3]>)
    ensures
        r is Some <==> is_hex_color(t@),
        r matches Some(c) ==> forall|k: int| 0 <= k < 3 ==> c@[k] == color_byte(t@, k),
{
    <[u8; 3]>::from_hex(t).ok()
}

/// A team: its name, its abbreviation and its colour.
#[derive(Clone, Debug)]
pub struct Team {
    pub name: String,
    pub abbr: String,
    pub color: [u8; 3],
}

impl Team {
    /// Reads `name,abbreviation,#rrggbb`: the first three comma-separated
    /// fields, the third a colour of six hex digits after any leading `'#'`.
    /// `None` when there are fewer than three fields or the colour is not
    /// six hex digits. Fields past the third are ignored.
    pub fn from_str(s: &str) -> (r: Option<Team>)
        ensures
            ({
                let fs = fields(s@, ',');
                &&& r is Some <==> fs.len() >= 3 && is_hex_color(strip_hashes(fs[2]))
                &&& r matches Some(t) ==> {
                    &&& t.name@ == fs[0]
                    &&& t.abbr@ == fs[1]
                    &&& forall|k: int|
                        0 <= k < 3 ==> t.color@[k] == color_byte(strip_hashes(fs[2]), k)
                }
            }),
    {
        let parts = split_fields(s, ',');
        let ghost fs = parts@.map_values(|f: String| f@);
        assert(parts@.len() == fs.len());
        if parts.len() < 3 {
            return None;
        }
        assert(fs[0] == parts@[0]@ && fs[1] == parts@[1]@ && fs[2] == parts@[2]@);
        let digits = trim_hashes(parts[2].as_str());
        match decode_color(digits) {
            None => None,
            Some(color) => Some(Team { name: parts[0].clone(), abbr: parts[1].clone(), color }),
        }
    }
}

} // verus!
