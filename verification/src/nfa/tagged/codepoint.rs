//! Matching one UTF-8 encoded code point of a class at a byte position.
use crate::hir::CodepointClass;
use vstd::prelude::*;
use vstd::utf8::{
    decode_first_codepoint, length_of_first_codepoint,
    valid_leading_and_continuation_bytes_first_codepoint,
};

verus! {

/// What `check_codepoint_class` gives: the width of the code point encoded at
/// `pos` when its bytes have the UTF-8 bit pattern and the class holds it
/// (overlong forms and surrogates are decoded like any other), -1 otherwise.
pub open spec fn codepoint_check(input: Seq<u8>, pos: int, cls: CodepointClass) -> int {
    let rest = input.subrange(pos, input.len() as int);
    if 0 <= pos < input.len() && valid_leading_and_continuation_bytes_first_codepoint(rest)
        && cls.spec_contains(decode_first_codepoint(rest)) {
        length_of_first_codepoint(rest)
    } else {
        -1
    }
}

/// Decodes the code point at `pos` and tests it against the class: its width
/// in bytes (1 to 4) when it is in the class, -1 when it is not, when `pos`
/// is past the input, or when the bytes there do not encode a code point.
pub fn check_codepoint_class(input: &[u8], pos: usize, cpclass: &CodepointClass) -> (r: i64)
    ensures
        r as int == codepoint_check(input@, pos as int, *cpclass),
{
    let input_len = input.len();
    if pos >= input_len {
        return -1;
    }
    let ghost rest = input@.subrange(pos as int, input_len as int);
    proof {
        assert(rest[0] == input@[pos as int]);
    }
    let first_byte = input[pos];
    let codepoint: u32;
    let char_len: i64;
    if first_byte < 0x80 {
        codepoint = first_byte as u32;
        char_len = 1;
        proof {
            assert(first_byte as u32 == (first_byte & 0x7F) as u32) by (bit_vector)
                requires
                    first_byte < 0x80,
            ;
        }
    } else if first_byte < 0xC0 {
        return -1;
    } else if first_byte < 0xE0 {
        if pos + 1 >= input_len {
            return -1;
        }
        let b1 = input[pos + 1];
        proof {
            assert(rest[1] == b1);
        }
        if (b1 & 0xC0) != 0x80 {
            proof {
                assert(!(0x80 <= b1 <= 0xbf)) by (bit_vector)
                    requires
                        (b1 & 0xC0) != 0x80,
                ;
            }
            return -1;
        }
        proof {
            assert(0x80 <= b1 <= 0xbf) by (bit_vector)
                requires
                    (b1 & 0xC0) == 0x80,
            ;
        }
        codepoint = ((first_byte as u32 & 0x1F) << 6) | (b1 as u32 & 0x3F);
        char_len = 2;
        proof {
            assert(((first_byte as u32 & 0x1F) << 6) | (b1 as u32 & 0x3F) == (((first_byte & 0x1F)
                as u32) << 6) | ((b1 & 0x3f) as u32)) by (bit_vector);
        }
    } else if first_byte < 0xF0 {
        if input_len - pos <= 2 {
            return -1;
        }
        let b1 = input[pos + 1];
        let b2 = input[pos + 2];
        proof {
            assert(rest[1] == b1 && rest[2] == b2);
        }
        if (b1 & 0xC0) != 0x80 || (b2 & 0xC0) != 0x80 {
            proof {
                assert((b1 & 0xC0) != 0x80 ==> !(0x80 <= b1 <= 0xbf)) by (bit_vector);
                assert((b2 & 0xC0) != 0x80 ==> !(0x80 <= b2 <= 0xbf)) by (bit_vector);
            }
            return -1;
        }
        proof {
            assert((b1 & 0xC0) == 0x80 ==> 0x80 <= b1 <= 0xbf) by (bit_vector);
            assert((b2 & 0xC0) == 0x80 ==> 0x80 <= b2 <= 0xbf) by (bit_vector);
        }
        codepoint = ((first_byte as u32 & 0x0F) << 12) | ((b1 as u32 & 0x3F) << 6) | (b2 as u32
            & 0x3F);
        char_len = 3;
        proof {
            assert(((first_byte as u32 & 0x0F) << 12) | ((b1 as u32 & 0x3F) << 6) | (b2 as u32
                & 0x3F) == (((first_byte & 0x0F) as u32) << 12) | (((b1 & 0x3f) as u32) << 6) | ((
            b2 & 0x3f) as u32)) by (bit_vector);
        }
    } else if first_byte < 0xF8 {
        if input_len - pos <= 3 {
            return -1;
        }
        let b1 = input[pos + 1];
        let b2 = input[pos + 2];
        let b3 = input[pos + 3];
        proof {
            assert(rest[1] == b1 && rest[2] == b2 && rest[3] == b3);
        }
        if (b1 & 0xC0) != 0x80 || (b2 & 0xC0) != 0x80 || (b3 & 0xC0) != 0x80 {
            proof {
                assert((b1 & 0xC0) != 0x80 ==> !(0x80 <= b1 <= 0xbf)) by (bit_vector);
                assert((b2 & 0xC0) != 0x80 ==> !(0x80 <= b2 <= 0xbf)) by (bit_vector);
                assert((b3 & 0xC0) != 0x80 ==> !(0x80 <= b3 <= 0xbf)) by (bit_vector);
            }
            return -1;
        }
        proof {
            assert((b1 & 0xC0) == 0x80 ==> 0x80 <= b1 <= 0xbf) by (bit_vector);
            assert((b2 & 0xC0) == 0x80 ==> 0x80 <= b2 <= 0xbf) by (bit_vector);
            assert((b3 & 0xC0) == 0x80 ==> 0x80 <= b3 <= 0xbf) by (bit_vector);
        }
        codepoint = ((first_byte as u32 & 0x07) << 18) | ((b1 as u32 & 0x3F) << 12) | ((b2 as u32
            & 0x3F) << 6) | (b3 as u32 & 0x3F);
        char_len = 4;
        proof {
            assert(((first_byte as u32 & 0x07) << 18) | ((b1 as u32 & 0x3F) << 12) | ((b2 as u32
                & 0x3F) << 6) | (b3 as u32 & 0x3F) == (((first_byte & 0x07) as u32) << 18) | (((b1
                & 0x3f) as u32) << 12) | (((b2 & 0x3f) as u32) << 6) | ((b3 & 0x3f) as u32))
                by (bit_vector);
        }
    } else {
        return -1;
    }
    proof {
        assert(valid_leading_and_continuation_bytes_first_codepoint(rest));
        assert(decode_first_codepoint(rest) == codepoint);
        assert(length_of_first_codepoint(rest) == char_len);
    }
    if cpclass.contains(codepoint) {
        char_len
    } else {
        -1
    }
}

} // verus!
