//! Names (characters) for the nodes of a graph.
use vstd::prelude::*;
use crate::text::{dec_nat, push_str, push_u64};

verus! {

/// Whether `v` is a Unicode scalar value: a code point that is not a surrogate.
pub open spec fn scalar_value(v: u32) -> bool {
    v <= 0xD7FF || (0xE000 <= v && v <= 0x10FFFF)
}

/// The character of code point `v` (std `char::from_u32`): the character whose code is `v`
/// when `v` is a Unicode scalar value, and nothing otherwise.
#[verifier::external_body]
pub(crate) fn char_from_u32(v: u32) -> (r: Option<char>)
    ensures
        match r {
            Some(c) => scalar_value(v) && c as u32 == v,
            None => !scalar_value(v),
        },
{
    char::from_u32(v)
}

/// The code point of emoticon `i`: the emoticons are U+1F600 to U+1F64F, then U+1F920 to
/// U+1F9FF.
pub open spec fn emoticon_code(i: int) -> int {
    if i < 80 {
        0x1F600 + i
    } else {
        0x1F920 + (i - 80)
    }
}

/// The message of a request for more emoticons than there are.
pub open spec fn too_many_emoticons() -> Seq<char> {
    "The number of emoticon names requested is too high (max "@ + dec_nat(304) + ")"@
}

pub struct Names {}

impl Names {
    /// Returns a list of emoticons (304 characters maximum): the first `length` of U+1F600 to
    /// U+1F64F then U+1F920 to U+1F9FF.
    pub fn emoticon(length: usize) -> (r: Result<Vec<char>, String>)
        ensures
            match r {
                Ok(v) => length <= 304 && v@.len() == length
                    && forall|i: int| 0 <= i < length ==> (#[trigger] v@[i]) as u32 == emoticon_code(i),
                Err(e) => length > 304 && e@ == too_many_emoticons(),
            },
    {
        let mut chars: Vec<char> = Vec::new();
        let mut v: u32 = 0x1F600;
        while v <= 0x1F64F
            invariant
                0x1F600 <= v <= 0x1F650,
                chars@.len() == v - 0x1F600,
                forall|i: int| 0 <= i < chars@.len() ==> (#[trigger] chars@[i]) as u32 == emoticon_code(i),
            decreases 0x1F650 - v,
        {
            if let Some(c) = char_from_u32(v) {
                chars.push(c);
            }
            v = v + 1;
        }
        let mut v: u32 = 0x1F920;
        while v <= 0x1F9FF
            invariant
                0x1F920 <= v <= 0x1FA00,
                chars@.len() == 80 + (v - 0x1F920),
                forall|i: int| 0 <= i < chars@.len() ==> (#[trigger] chars@[i]) as u32 == emoticon_code(i),
            decreases 0x1FA00 - v,
        {
            if let Some(c) = char_from_u32(v) {
                chars.push(c);
            }
            v = v + 1;
        }
        if length > chars.len() {
            let mut e = String::new();
            push_str(&mut e, "The number of emoticon names requested is too high (max ");
            push_u64(&mut e, chars.len() as u64);
            push_str(&mut e, ")");
            return Err(e);
        }
        let mut names: Vec<char> = Vec::new();
        let mut i: usize = 0;
        while i < length
            invariant
                length <= chars@.len(),
                i <= length,
                names@ == chars@.take(i as int),
            decreases length - i,
        {
            names.push(chars[i]);
            i = i + 1;
            assert(names@ =~= chars@.take(i as int));
        }
        Ok(names)
    }
}

} // verus!
