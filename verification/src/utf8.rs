//! UTF-8 validity of byte sequences. A line of the event stream that is
//! not valid UTF-8 is the one malformed input the frame decoder reports.

use vstd::prelude::*;

verus! {

/// A UTF-8 continuation byte.
pub open spec fn is_cont(b: u8) -> bool {
    0x80 <= b && b <= 0xBF
}

/// Length of the valid UTF-8 scalar encoding starting at `i`, or zero
/// when no valid encoding starts there. Overlong forms and surrogate
/// code points are invalid, as the UTF-8 definition demands.
pub open spec fn utf8_step(s: Seq<u8>, i: int) -> int {
    if i < 0 || i >= s.len() {
        0
    } else {
        let b0 = s[i];
        if b0 <= 0x7F {
            1
        } else if 0xC2 <= b0 && b0 <= 0xDF {
            if i + 1 < s.len() && is_cont(s[i + 1]) {
                2
            } else {
                0
            }
        } else if b0 == 0xE0 {
            if i + 2 < s.len() && 0xA0 <= s[i + 1] && s[i + 1] <= 0xBF && is_cont(s[i + 2]) {
                3
            } else {
                0
            }
        } else if (0xE1 <= b0 && b0 <= 0xEC) || b0 == 0xEE || b0 == 0xEF {
            if i + 2 < s.len() && is_cont(s[i + 1]) && is_cont(s[i + 2]) {
                3
            } else {
                0
            }
        } else if b0 == 0xED {
            if i + 2 < s.len() && 0x80 <= s[i + 1] && s[i + 1] <= 0x9F && is_cont(s[i + 2]) {
                3
            } else {
                0
            }
        } else if b0 == 0xF0 {
            if i + 3 < s.len() && 0x90 <= s[i + 1] && s[i + 1] <= 0xBF && is_cont(s[i + 2])
                && is_cont(s[i + 3]) {
                4
            } else {
                0
            }
        } else if 0xF1 <= b0 && b0 <= 0xF3 {
            if i + 3 < s.len() && is_cont(s[i + 1]) && is_cont(s[i + 2]) && is_cont(s[i + 3]) {
                4
            } else {
                0
            }
        } else if b0 == 0xF4 {
            if i + 3 < s.len() && 0x80 <= s[i + 1] && s[i + 1] <= 0x8F && is_cont(s[i + 2])
                && is_cont(s[i + 3]) {
                4
            } else {
                0
            }
        } else {
            0
        }
    }
}

/// The bytes of `s` from `i` on are a sequence of valid UTF-8 scalar
/// encodings.
pub open spec fn is_utf8_from(s: Seq<u8>, i: int) -> bool
    decreases s.len() - i,
{
    if i < 0 || i >= s.len() {
        true
    } else {
        let k = utf8_step(s, i);
        k > 0 && is_utf8_from(s, i + k)
    }
}

/// `s` is a valid UTF-8 byte sequence.
pub open spec fn is_utf8(s: Seq<u8>) -> bool {
    is_utf8_from(s, 0)
}

/// Whether `v` is valid UTF-8.
pub fn validate_utf8(v: &Vec<u8>) -> (r: bool)
    ensures
        r == is_utf8(v@),
{
    let n = v.len();
    let mut i: usize = 0;
    while i < n
        invariant
            0 <= i <= n,
            n == v@.len(),
            is_utf8(v@) == is_utf8_from(v@, i as int),
        decreases n - i,
    {
        let b0 = v[i];
        let k: usize = if b0 <= 0x7F {
            1
        } else if 0xC2 <= b0 && b0 <= 0xDF {
            if n - i > 1 && 0x80 <= v[i + 1] && v[i + 1] <= 0xBF {
                2
            } else {
                0
            }
        } else if b0 == 0xE0 {
            if n - i > 2 && 0xA0 <= v[i + 1] && v[i + 1] <= 0xBF && 0x80 <= v[i + 2]
                && v[i + 2] <= 0xBF {
                3
            } else {
                0
            }
        } else if (0xE1 <= b0 && b0 <= 0xEC) || b0 == 0xEE || b0 == 0xEF {
            if n - i > 2 && 0x80 <= v[i + 1] && v[i + 1] <= 0xBF && 0x80 <= v[i + 2]
                && v[i + 2] <= 0xBF {
                3
            } else {
                0
            }
        } else if b0 == 0xED {
            if n - i > 2 && 0x80 <= v[i + 1] && v[i + 1] <= 0x9F && 0x80 <= v[i + 2]
                && v[i + 2] <= 0xBF {
                3
            } else {
                0
            }
        } else if b0 == 0xF0 {
            if n - i > 3 && 0x90 <= v[i + 1] && v[i + 1] <= 0xBF && 0x80 <= v[i + 2]
                && v[i + 2] <= 0xBF && 0x80 <= v[i + 3] && v[i + 3] <= 0xBF {
                4
            } else {
                0
            }
        } else if 0xF1 <= b0 && b0 <= 0xF3 {
            if n - i > 3 && 0x80 <= v[i + 1] && v[i + 1] <= 0xBF && 0x80 <= v[i + 2]
                && v[i + 2] <= 0xBF && 0x80 <= v[i + 3] && v[i + 3] <= 0xBF {
                4
            } else {
                0
            }
        } else if b0 == 0xF4 {
            if n - i > 3 && 0x80 <= v[i + 1] && v[i + 1] <= 0x8F && 0x80 <= v[i + 2]
                && v[i + 2] <= 0xBF && 0x80 <= v[i + 3] && v[i + 3] <= 0xBF {
                4
            } else {
                0
            }
        } else {
            0
        };
        proof {
            assert(k as int == utf8_step(v@, i as int));
        }
        if k == 0 {
            return false;
        }
        i += k;
    }
    true
}

} // verus!
