//! A UTF-8 validity check for a bounded prefix of a byte buffer, proved
//! against `vstd::utf8::valid_utf8`.

use vstd::prelude::*;
use vstd::utf8::codepoint_width_2;
use vstd::utf8::codepoint_width_3;
use vstd::utf8::codepoint_width_4;
use vstd::utf8::is_continuation_byte;
use vstd::utf8::length_of_first_scalar;
use vstd::utf8::pop_first_scalar;
use vstd::utf8::valid_first_scalar;
use vstd::utf8::valid_utf8;

verus! {

/// Checks whether `s[i..limit]` begins with a well-formed UTF-8 encoding of
/// one Unicode scalar; on success returns the width of that encoding.
fn check_first_scalar(s: &[u8], i: usize, limit: usize) -> (r: Option<usize>)
    requires
        i < limit <= s@.len(),
    ensures
        ({
            let t = s@.subrange(i as int, limit as int);
            match r {
                Some(w) => valid_first_scalar(t) && w == length_of_first_scalar(t) && i + w
                    <= limit,
                None => !valid_first_scalar(t),
            }
        }),
{
    let ghost t = s@.subrange(i as int, limit as int);
    let b0 = s[i];
    assert(t[0] == b0);
    if b0 <= 0x7f {
        Some(1)
    } else if 0xc0 <= b0 && b0 <= 0xdf {
        if limit - i < 2 {
            return None;
        }
        let b1 = s[i + 1];
        assert(t[1] == b1);
        if !(0x80 <= b1 && b1 <= 0xbf) {
            return None;
        }
        let cp: u32 = (((b0 & 0x1f) as u32) << 6) | ((b1 & 0x3f) as u32);
        assert(cp == codepoint_width_2(b0, b1));
        if cp < 0x80 {
            None
        } else {
            assert((((b0 & 0x1f) as u32) << 6) | ((b1 & 0x3f) as u32) <= 0x7ff) by (bit_vector);
            Some(2)
        }
    } else if 0xe0 <= b0 && b0 <= 0xef {
        if limit - i < 3 {
            return None;
        }
        let b1 = s[i + 1];
        let b2 = s[i + 2];
        assert(t[1] == b1 && t[2] == b2);
        if !(0x80 <= b1 && b1 <= 0xbf) || !(0x80 <= b2 && b2 <= 0xbf) {
            return None;
        }
        let cp: u32 = (((b0 & 0x0f) as u32) << 12) | (((b1 & 0x3f) as u32) << 6) | ((b2
            & 0x3f) as u32);
        assert(cp == codepoint_width_3(b0, b1, b2));
        if cp < 0x800 {
            None
        } else if 0xd800 <= cp && cp <= 0xdfff {
            None
        } else {
            Some(3)
        }
    } else if 0xf0 <= b0 && b0 <= 0xf7 {
        if limit - i < 4 {
            return None;
        }
        let b1 = s[i + 1];
        let b2 = s[i + 2];
        let b3 = s[i + 3];
        assert(t[1] == b1 && t[2] == b2 && t[3] == b3);
        if !(0x80 <= b1 && b1 <= 0xbf) || !(0x80 <= b2 && b2 <= 0xbf) || !(0x80 <= b3 && b3
            <= 0xbf) {
            return None;
        }
        let cp: u32 = (((b0 & 0x07) as u32) << 18) | (((b1 & 0x3f) as u32) << 12) | (((b2
            & 0x3f) as u32) << 6) | ((b3 & 0x3f) as u32);
        assert(cp == codepoint_width_4(b0, b1, b2, b3));
        if cp < 0x10000 || cp > 0x10ffff {
            None
        } else {
            Some(4)
        }
    } else {
        None
    }
}

/// A sequence of bytes below 0x80 is a valid UTF-8 encoding: every byte is
/// a one-byte scalar.
pub proof fn lemma_ascii_valid_utf8(s: Seq<u8>)
    requires
        forall|i: int| 0 <= i < s.len() ==> s[i] < 0x80,
    ensures
        valid_utf8(s),
    decreases s.len(),
{
    if s.len() > 0 {
        let b0 = s[0];
        assert(valid_first_scalar(s)) by {
            assert(b0 & 0x7f < 0xd800) by (bit_vector);
        }
        assert(pop_first_scalar(s) =~= s.skip(1));
        lemma_ascii_valid_utf8(s.skip(1));
    }
}

/// Checks that the first `limit` bytes of `s` are a valid UTF-8 encoding.
pub fn is_valid_utf8_up_to(s: &[u8], limit: usize) -> (r: bool)
    requires
        limit <= s@.len(),
    ensures
        r == valid_utf8(s@.take(limit as int)),
{
    let ghost p = s@.take(limit as int);
    let mut i: usize = 0;
    proof {
        assert(p.skip(0) =~= p);
    }
    while i < limit
        invariant
            i <= limit <= s@.len(),
            p == s@.take(limit as int),
            valid_utf8(p) == valid_utf8(p.skip(i as int)),
        decreases limit - i,
    {
        let step = check_first_scalar(s, i, limit);
        proof {
            assert(p.skip(i as int) =~= s@.subrange(i as int, limit as int));
        }
        match step {
            Some(w) => {
                proof {
                    let t = p.skip(i as int);
                    assert(pop_first_scalar(t) =~= p.skip(i as int + w));
                    assert(valid_utf8(t) == valid_utf8(pop_first_scalar(t)));
                }
                i = i + w;
            },
            None => {
                proof {
                    assert(!valid_utf8(p.skip(i as int)));
                }
                return false;
            },
        }
    }
    proof {
        assert(p.skip(i as int) =~= Seq::<u8>::empty());
        assert(valid_utf8(p.skip(i as int)));
    }
    true
}

} // verus!
