//! Codec for the structured error payload a client-error response
//! carries. The payload is a JSON object: blanks may stand between
//! tokens, strings carry the JSON escapes (including `\u` forms and
//! surrogate pairs), and members other than the required ones may hold
//! any JSON value, nested up to a fixed depth. The object must hold an
//! integer `status` in the status range and a string `title`; other
//! members are ignored.

use vstd::prelude::*;
use crate::bytes::{is_digit, digits_val, pow10, lemma_digits_val_bound,
    lemma_digits_val_lower, lemma_pow10, dec_digits, lemma_dec_digits, opt_bytes_view};
use crate::error::HorizonError;

verus! {

/// The nesting depth up to which ignored member values are accepted.
pub open spec fn max_depth() -> nat {
    128
}

/// The bytes of the member name `status`.
pub open spec fn status_key() -> Seq<u8> {
    seq![115u8, 116u8, 97u8, 116u8, 117u8, 115u8]
}

/// The bytes of the member name `title`.
pub open spec fn title_key() -> Seq<u8> {
    seq![116u8, 105u8, 116u8, 108u8, 101u8]
}

/// A JSON blank: space, tab, line feed, or carriage return.
pub open spec fn is_ws(b: u8) -> bool {
    b == 32 || b == 9 || b == 10 || b == 13
}

/// How many blanks stand at `i`.
pub open spec fn ws_run(s: Seq<u8>, i: int) -> int
    decreases s.len() - i,
{
    if i < 0 || i >= s.len() || !is_ws(s[i]) {
        0
    } else {
        1 + ws_run(s, i + 1)
    }
}

/// The first index at or after `i` that holds no blank.
pub open spec fn skip_ws(s: Seq<u8>, i: int) -> int {
    i + ws_run(s, i)
}

/// A blank run is nonnegative and stays inside the sequence.
pub proof fn lemma_ws_run(s: Seq<u8>, i: int)
    requires
        0 <= i <= s.len(),
    ensures
        0 <= ws_run(s, i),
        i + ws_run(s, i) <= s.len(),
    decreases s.len() - i,
{
    if i < s.len() && is_ws(s[i]) {
        lemma_ws_run(s, i + 1);
    }
}

/// A maximal run of blanks is what `ws_run` counts.
pub proof fn lemma_ws_run_is(s: Seq<u8>, i: int, l: int)
    requires
        0 <= i,
        0 <= l,
        i + l <= s.len(),
        forall|j: int| i <= j < i + l ==> is_ws(s[j]),
        i + l == s.len() || !is_ws(s[i + l]),
    ensures
        ws_run(s, i) == l,
    decreases l,
{
    if l > 0 {
        lemma_ws_run_is(s, i + 1, l - 1);
    }
}

/// How many decimal digits stand at `i`.
pub open spec fn digit_run(s: Seq<u8>, i: int) -> int
    decreases s.len() - i,
{
    if i < 0 || i >= s.len() || !is_digit(s[i]) {
        0
    } else {
        1 + digit_run(s, i + 1)
    }
}

/// A digit run is nonnegative and stays inside the sequence.
pub proof fn lemma_digit_run(s: Seq<u8>, i: int)
    requires
        0 <= i <= s.len(),
    ensures
        0 <= digit_run(s, i),
        i + digit_run(s, i) <= s.len(),
    decreases s.len() - i,
{
    if i < s.len() && is_digit(s[i]) {
        lemma_digit_run(s, i + 1);
    }
}

/// A maximal run of digits is what `digit_run` counts.
pub proof fn lemma_digit_run_is(s: Seq<u8>, i: int, l: int)
    requires
        0 <= i,
        0 <= l,
        i + l <= s.len(),
        forall|j: int| i <= j < i + l ==> is_digit(s[j]),
        i + l == s.len() || !is_digit(s[i + l]),
    ensures
        digit_run(s, i) == l,
    decreases l,
{
    if l > 0 {
        lemma_digit_run_is(s, i + 1, l - 1);
    }
}

/// The value of a hexadecimal digit, or a negative number for any
/// other byte.
pub open spec fn hex_val(b: u8) -> int {
    if 48 <= b && b <= 57 {
        b - 48
    } else if 65 <= b && b <= 70 {
        b - 55
    } else if 97 <= b && b <= 102 {
        b - 87
    } else {
        -1
    }
}

/// The value of the four hexadecimal digits at `i`, or a negative
/// number when they are not four hexadecimal digits.
pub open spec fn hex4(s: Seq<u8>, i: int) -> int {
    if 0 <= i && i + 4 <= s.len() && hex_val(s[i]) >= 0 && hex_val(s[i + 1]) >= 0 && hex_val(
        s[i + 2],
    ) >= 0 && hex_val(s[i + 3]) >= 0 {
        hex_val(s[i]) * 4096 + hex_val(s[i + 1]) * 256 + hex_val(s[i + 2]) * 16 + hex_val(
            s[i + 3],
        )
    } else {
        -1
    }
}

/// The UTF-8 encoding of the scalar value `cp`.
pub open spec fn utf8_enc(cp: int) -> Seq<u8> {
    if cp < 0 {
        Seq::empty()
    } else if cp < 0x80 {
        seq![cp as u8]
    } else if cp < 0x800 {
        seq![(0xC0 + cp / 0x40) as u8, (0x80 + cp % 0x40) as u8]
    } else if cp < 0x10000 {
        seq![
            (0xE0 + cp / 0x1000) as u8,
            (0x80 + (cp / 0x40) % 0x40) as u8,
            (0x80 + cp % 0x40) as u8,
        ]
    } else {
        seq![
            (0xF0 + cp / 0x40000) as u8,
            (0x80 + (cp / 0x1000) % 0x40) as u8,
            (0x80 + (cp / 0x40) % 0x40) as u8,
            (0x80 + cp % 0x40) as u8,
        ]
    }
}

/// The byte a one-character escape denotes, if the character can
/// stand after a backslash.
pub open spec fn esc_char(e: u8) -> Option<u8> {
    if e == 34 {
        Some(34u8)
    } else if e == 92 {
        Some(92u8)
    } else if e == 47 {
        Some(47u8)
    } else if e == 98 {
        Some(8u8)
    } else if e == 102 {
        Some(12u8)
    } else if e == 110 {
        Some(10u8)
    } else if e == 114 {
        Some(13u8)
    } else if e == 116 {
        Some(9u8)
    } else {
        None
    }
}

/// The body of a string token from `i` (the opening quote already
/// consumed): raw bytes, escapes, and `\u` forms with surrogate pairs,
/// up to the closing quote. Yields the decoded content and the index
/// after the closing quote.
pub open spec fn jstring_body(s: Seq<u8>, i: int) -> Option<(Seq<u8>, int)>
    decreases s.len() - i,
{
    if i < 0 || i >= s.len() {
        None
    } else if s[i] == 34 {
        Some((Seq::empty(), i + 1))
    } else if s[i] == 92 {
        if i + 2 > s.len() {
            None
        } else if s[i + 1] == 117 {
            if i + 6 > s.len() {
                None
            } else {
                let h = hex4(s, i + 2);
                if h < 0 {
                    None
                } else if 0xD800 <= h && h <= 0xDBFF {
                    if i + 12 <= s.len() && s[i + 6] == 92 && s[i + 7] == 117 && 0xDC00 <= hex4(
                        s,
                        i + 8,
                    ) && hex4(s, i + 8) <= 0xDFFF {
                        let cp = 0x10000 + (h - 0xD800) * 0x400 + (hex4(s, i + 8) - 0xDC00);
                        match jstring_body(s, i + 12) {
                            None => None,
                            Some((t, j)) => Some((utf8_enc(cp) + t, j)),
                        }
                    } else {
                        None
                    }
                } else if 0xDC00 <= h && h <= 0xDFFF {
                    None
                } else {
                    match jstring_body(s, i + 6) {
                        None => None,
                        Some((t, j)) => Some((utf8_enc(h) + t, j)),
                    }
                }
            }
        } else {
            match esc_char(s[i + 1]) {
                None => None,
                Some(c) => match jstring_body(s, i + 2) {
                    None => None,
                    Some((t, j)) => Some((seq![c] + t, j)),
                },
            }
        }
    } else if s[i] < 32 {
        None
    } else {
        match jstring_body(s, i + 1) {
            None => None,
            Some((t, j)) => Some((seq![s[i]] + t, j)),
        }
    }
}

/// A string body consumes at least its closing quote and stays inside
/// the sequence.
pub proof fn lemma_jstring_body(s: Seq<u8>, i: int)
    ensures
        match jstring_body(s, i) {
            Some(p) => i + 1 <= p.1 <= s.len(),
            None => true,
        },
    decreases s.len() - i,
{
    if 0 <= i < s.len() && s[i] != 34 {
        lemma_jstring_body(s, i + 1);
        if i + 2 <= s.len() {
            lemma_jstring_body(s, i + 2);
        }
        if i + 6 <= s.len() {
            lemma_jstring_body(s, i + 6);
        }
        if i + 12 <= s.len() {
            lemma_jstring_body(s, i + 12);
        }
    }
}

/// A byte that may stand in a number token, read leniently.
pub open spec fn is_num_byte(b: u8) -> bool {
    is_digit(b) || b == 45 || b == 43 || b == 46 || b == 101 || b == 69
}

/// How many number bytes stand at `i`.
pub open spec fn num_run(s: Seq<u8>, i: int) -> int
    decreases s.len() - i,
{
    if i < 0 || i >= s.len() || !is_num_byte(s[i]) {
        0
    } else {
        1 + num_run(s, i + 1)
    }
}

/// A number run is nonnegative and stays inside the sequence.
pub proof fn lemma_num_run(s: Seq<u8>, i: int)
    requires
        0 <= i <= s.len(),
    ensures
        0 <= num_run(s, i),
        i + num_run(s, i) <= s.len(),
    decreases s.len() - i,
{
    if i < s.len() && is_num_byte(s[i]) {
        lemma_num_run(s, i + 1);
    }
}

/// A maximal run of number bytes is what `num_run` counts.
pub proof fn lemma_num_run_is(s: Seq<u8>, i: int, l: int)
    requires
        0 <= i,
        0 <= l,
        i + l <= s.len(),
        forall|j: int| i <= j < i + l ==> is_num_byte(s[j]),
        i + l == s.len() || !is_num_byte(s[i + l]),
    ensures
        num_run(s, i) == l,
    decreases l,
{
    if l > 0 {
        lemma_num_run_is(s, i + 1, l - 1);
    }
}

/// Whether the four bytes at `i` spell `true`, et cetera.
pub open spec fn lit_at(s: Seq<u8>, i: int, w: Seq<u8>) -> bool {
    0 <= i && i + w.len() <= s.len() && s.subrange(i, i + w.len()) == w
}

/// Skip one ignored JSON value standing at `i` (blanks before it
/// already consumed): a string, a number read leniently, a literal,
/// or an object or array nested less than `d` deep. Yields the index
/// after the value.
pub open spec fn skip_value(s: Seq<u8>, i: int, d: nat) -> Option<int>
    decreases d, s.len() - i, 0int,
{
    if i < 0 || i >= s.len() {
        None
    } else if s[i] == 34 {
        match jstring_body(s, i + 1) {
            None => None,
            Some((t, j)) => Some(j),
        }
    } else if s[i] == 45 || is_digit(s[i]) {
        Some(i + num_run(s, i))
    } else if lit_at(s, i, seq![116u8, 114u8, 117u8, 101u8]) {
        Some(i + 4)
    } else if lit_at(s, i, seq![110u8, 117u8, 108u8, 108u8]) {
        Some(i + 4)
    } else if lit_at(s, i, seq![102u8, 97u8, 108u8, 115u8, 101u8]) {
        Some(i + 5)
    } else if s[i] == 123 {
        let w = skip_ws(s, i + 1);
        if w < s.len() && s[w] == 125 {
            Some(w + 1)
        } else if d == 0 {
            None
        } else {
            skip_members(s, w, (d - 1) as nat)
        }
    } else if s[i] == 91 {
        let w = skip_ws(s, i + 1);
        if w < s.len() && s[w] == 93 {
            Some(w + 1)
        } else if d == 0 {
            None
        } else {
            skip_items(s, w, (d - 1) as nat)
        }
    } else {
        None
    }
}

/// Skip the members of an ignored object from the first key on.
/// Yields the index after the closing brace.
pub open spec fn skip_members(s: Seq<u8>, i: int, d: nat) -> Option<int>
    decreases d, s.len() - i, 1int,
    via skip_members_dec
{
    if 0 <= i && i < s.len() && s[i] == 34 {
        match jstring_body(s, i + 1) {
            None => None,
            Some((k, j)) => {
                let jw = skip_ws(s, j);
                if jw < s.len() && s[jw] == 58 {
                    match skip_value(s, skip_ws(s, jw + 1), d) {
                        None => None,
                        Some(j2) => {
                            let j3 = skip_ws(s, j2);
                            if i < j3 && j3 < s.len() && s[j3] == 44 {
                                skip_members(s, skip_ws(s, j3 + 1), d)
                            } else if j3 < s.len() && s[j3] == 125 {
                                Some(j3 + 1)
                            } else {
                                None
                            }
                        },
                    }
                } else {
                    None
                }
            },
        }
    } else {
        None
    }
}

/// Skip the items of an ignored array from the first item on. Yields
/// the index after the closing bracket.
pub open spec fn skip_items(s: Seq<u8>, i: int, d: nat) -> Option<int>
    decreases d, s.len() - i, 1int,
    via skip_items_dec
{
    match skip_value(s, i, d) {
        None => None,
        Some(j) => {
            let jw = skip_ws(s, j);
            if i < jw && jw < s.len() && s[jw] == 44 {
                skip_items(s, skip_ws(s, jw + 1), d)
            } else if jw < s.len() && s[jw] == 93 {
                Some(jw + 1)
            } else {
                None
            }
        },
    }
}

#[via_fn]
proof fn skip_members_dec(s: Seq<u8>, i: int, d: nat) {
    if 0 <= i < s.len() {
        lemma_jstring_body(s, i + 1);
    }
    assert forall|p: int| #![trigger ws_run(s, p)] ws_run(s, p) >= 0 && (0 <= p <= s.len()
        ==> p + ws_run(s, p) <= s.len()) by {
        lemma_ws_run_in(s, p);
    }
}

#[via_fn]
proof fn skip_items_dec(s: Seq<u8>, i: int, d: nat) {
    assert forall|p: int| #![trigger ws_run(s, p)] ws_run(s, p) >= 0 && (0 <= p <= s.len()
        ==> p + ws_run(s, p) <= s.len()) by {
        lemma_ws_run_in(s, p);
    }
}

/// Blanks never run out of the sequence, from any starting point.
pub proof fn lemma_ws_run_in(s: Seq<u8>, i: int)
    ensures
        ws_run(s, i) >= 0,
        0 <= i <= s.len() ==> i + ws_run(s, i) <= s.len(),
    decreases s.len() - i,
{
    if 0 <= i < s.len() && is_ws(s[i]) {
        lemma_ws_run_in(s, i + 1);
    }
}

/// A skipped value moves forward and stays inside the sequence.
pub proof fn lemma_skip_value_ge(s: Seq<u8>, i: int, d: nat)
    ensures
        match skip_value(s, i, d) {
            Some(j) => i + 1 <= j <= s.len(),
            None => true,
        },
    decreases d, s.len() - i, 0int,
{
    if 0 <= i < s.len() {
        if s[i] == 34 {
            lemma_jstring_body(s, i + 1);
        } else if s[i] == 45 || is_digit(s[i]) {
            lemma_num_run(s, i);
            lemma_num_run(s, i + 1);
            assert(num_run(s, i) >= 1);
        } else if s[i] == 123 {
            lemma_ws_run(s, i + 1);
            let w = skip_ws(s, i + 1);
            if !(w < s.len() && s[w] == 125) && d > 0 {
                lemma_skip_members_ge(s, w, (d - 1) as nat);
            }
        } else if s[i] == 91 {
            lemma_ws_run(s, i + 1);
            let w = skip_ws(s, i + 1);
            if !(w < s.len() && s[w] == 93) && d > 0 {
                lemma_skip_items_ge(s, w, (d - 1) as nat);
            }
        }
    }
}

/// Skipped members move forward and stay inside the sequence.
pub proof fn lemma_skip_members_ge(s: Seq<u8>, i: int, d: nat)
    ensures
        match skip_members(s, i, d) {
            Some(j) => i + 1 <= j <= s.len(),
            None => true,
        },
    decreases d, s.len() - i, 1int,
{
    if 0 <= i < s.len() && s[i] == 34 {
        lemma_jstring_body(s, i + 1);
        match jstring_body(s, i + 1) {
            Some((k, j)) => {
                lemma_ws_run(s, j);
                let jw = skip_ws(s, j);
                if jw < s.len() && s[jw] == 58 {
                    lemma_ws_run(s, jw + 1);
                    let vw = skip_ws(s, jw + 1);
                    lemma_skip_value_ge(s, vw, d);
                    match skip_value(s, vw, d) {
                        Some(j2) => {
                            lemma_ws_run(s, j2);
                            let j3 = skip_ws(s, j2);
                            if i < j3 && j3 < s.len() && s[j3] == 44 {
                                lemma_ws_run(s, j3 + 1);
                                lemma_skip_members_ge(s, skip_ws(s, j3 + 1), d);
                            }
                        },
                        None => {},
                    }
                }
            },
            None => {},
        }
    }
}

/// Skipped items move forward and stay inside the sequence.
pub proof fn lemma_skip_items_ge(s: Seq<u8>, i: int, d: nat)
    ensures
        match skip_items(s, i, d) {
            Some(j) => i + 1 <= j <= s.len(),
            None => true,
        },
    decreases d, s.len() - i, 1int,
{
    lemma_skip_value_ge(s, i, d);
    match skip_value(s, i, d) {
        Some(j) => {
            lemma_ws_run(s, j);
            let jw = skip_ws(s, j);
            if i < jw && jw < s.len() && s[jw] == 44 {
                lemma_ws_run(s, jw + 1);
                lemma_skip_items_ge(s, skip_ws(s, jw + 1), d);
            }
        },
        None => {},
    }
}

/// One member's value at `vw`, by its key: `status` must be a plain
/// integer without a leading zero that fits the status range, `title`
/// must be a string, and any other member may hold any value. Yields
/// the fields gathered so far and the index after the value.
pub open spec fn member_value(
    s: Seq<u8>,
    vw: int,
    key: Seq<u8>,
    st: Option<u16>,
    ti: Option<Seq<u8>>,
) -> Option<(Option<u16>, Option<Seq<u8>>, int)> {
    if key == status_key() {
        if 0 <= vw && vw < s.len() && is_digit(s[vw]) && !(s[vw] == 48 && digit_run(s, vw) > 1)
            && digits_val(s.subrange(vw, vw + digit_run(s, vw))) <= 65535 {
            Some(
                (
                    Some(digits_val(s.subrange(vw, vw + digit_run(s, vw))) as u16),
                    ti,
                    vw + digit_run(s, vw),
                ),
            )
        } else {
            None
        }
    } else if key == title_key() {
        if 0 <= vw && vw < s.len() && s[vw] == 34 {
            match jstring_body(s, vw + 1) {
                None => None,
                Some((t, j)) => Some((st, Some(t), j)),
            }
        } else {
            None
        }
    } else {
        match skip_value(s, vw, max_depth()) {
            None => None,
            Some(j) => Some((st, ti, j)),
        }
    }
}

/// The members from `i` on (blanks before the key consumed): `key :
/// value` pairs separated by commas, closed by the final brace with
/// only blanks after it. Succeeds only when both required fields are
/// present at the end.
pub open spec fn parse_members(
    s: Seq<u8>,
    i: int,
    st: Option<u16>,
    ti: Option<Seq<u8>>,
) -> Option<(u16, Seq<u8>)>
    decreases s.len() - i,
    via parse_members_dec
{
    if 0 <= i && i < s.len() && s[i] == 34 {
        match jstring_body(s, i + 1) {
            None => None,
            Some((key, j)) => {
                let jw = skip_ws(s, j);
                if jw < s.len() && s[jw] == 58 {
                    match member_value(s, skip_ws(s, jw + 1), key, st, ti) {
                        None => None,
                        Some((st2, ti2, j2)) => {
                            let j3 = skip_ws(s, j2);
                            if j3 < s.len() && s[j3] == 44 {
                                parse_members(s, skip_ws(s, j3 + 1), st2, ti2)
                            } else if j3 < s.len() && s[j3] == 125 {
                                if skip_ws(s, j3 + 1) == s.len() {
                                    match (st2, ti2) {
                                        (Some(a), Some(b)) => Some((a, b)),
                                        _ => None,
                                    }
                                } else {
                                    None
                                }
                            } else {
                                None
                            }
                        },
                    }
                } else {
                    None
                }
            },
        }
    } else {
        None
    }
}

/// A member's value moves forward and stays inside the sequence.
pub proof fn lemma_member_value_ge(
    s: Seq<u8>,
    vw: int,
    key: Seq<u8>,
    st: Option<u16>,
    ti: Option<Seq<u8>>,
)
    ensures
        match member_value(s, vw, key, st, ti) {
            Some(p) => vw + 1 <= p.2 <= s.len(),
            None => true,
        },
{
    if 0 <= vw && vw <= s.len() {
        lemma_digit_run(s, vw);
        if vw < s.len() && is_digit(s[vw]) {
            lemma_digit_run(s, vw + 1);
            assert(digit_run(s, vw) >= 1);
        }
        lemma_jstring_body(s, vw + 1);
        lemma_skip_value_ge(s, vw, max_depth());
    }
}

#[via_fn]
proof fn parse_members_dec(s: Seq<u8>, i: int, st: Option<u16>, ti: Option<Seq<u8>>) {
    if 0 <= i < s.len() {
        lemma_jstring_body(s, i + 1);
        match jstring_body(s, i + 1) {
            Some((key, j)) => {
                lemma_ws_run(s, j);
                let jw = skip_ws(s, j);
                lemma_ws_run_in(s, jw + 1);
                lemma_member_value_ge(s, skip_ws(s, jw + 1), key, st, ti);
                match member_value(s, skip_ws(s, jw + 1), key, st, ti) {
                    Some(p) => {
                        lemma_ws_run_in(s, p.2);
                        let j3 = skip_ws(s, p.2);
                        lemma_ws_run_in(s, j3 + 1);
                    },
                    None => {},
                }
            },
            None => {},
        }
    }
}

/// The whole payload: an object whose members yield a status and a
/// title, with blanks allowed around every token.
pub open spec fn parse_horizon_error(s: Seq<u8>) -> Option<(u16, Seq<u8>)> {
    let o = skip_ws(s, 0);
    if o < s.len() && s[o] == 123 {
        let w = skip_ws(s, o + 1);
        if w < s.len() && s[w] == 125 {
            None
        } else {
            parse_members(s, w, None, None)
        }
    } else {
        None
    }
}

/// Whether `v` holds exactly the member name `status`.
fn is_key_status(v: &Vec<u8>) -> (r: bool)
    ensures
        r == (v@ == status_key()),
{
    let r = v.len() == 6 && v[0] == 115 && v[1] == 116 && v[2] == 97 && v[3] == 116 && v[4]
        == 117 && v[5] == 115;
    proof {
        if r {
            assert(v@ =~= status_key());
        }
    }
    r
}

/// Whether `v` holds exactly the member name `title`.
fn is_key_title(v: &Vec<u8>) -> (r: bool)
    ensures
        r == (v@ == title_key()),
{
    let r = v.len() == 5 && v[0] == 116 && v[1] == 105 && v[2] == 116 && v[3] == 108 && v[4]
        == 101;
    proof {
        if r {
            assert(v@ =~= title_key());
        }
    }
    r
}

/// The first position at or after `from` that holds no blank.
fn skip_ws_exec(v: &Vec<u8>, from: usize) -> (r: usize)
    requires
        from <= v@.len(),
    ensures
        r as int == skip_ws(v@, from as int),
        from <= r <= v@.len(),
{
    let mut i = from;
    while i < v.len() && (v[i] == 32 || v[i] == 9 || v[i] == 10 || v[i] == 13)
        invariant
            from <= i <= v@.len(),
            forall|j: int| from <= j < i ==> is_ws(v@[j]),
        decreases v@.len() - i,
    {
        i += 1;
    }
    proof {
        lemma_ws_run_is(v@, from as int, i - from);
    }
    i
}

/// The value of a hexadecimal digit byte.
fn hex_digit_exec(b: u8) -> (r: Option<u8>)
    ensures
        match r {
            Some(h) => hex_val(b) == h as int && h < 16,
            None => hex_val(b) < 0,
        },
{
    if 48 <= b && b <= 57 {
        Some(b - 48)
    } else if 65 <= b && b <= 70 {
        Some(b - 55)
    } else if 97 <= b && b <= 102 {
        Some(b - 87)
    } else {
        None
    }
}

/// The four hexadecimal digits at `i`, as a number.
fn hex4_exec(v: &Vec<u8>, i: usize) -> (r: Option<u32>)
    requires
        i <= v@.len(),
    ensures
        match r {
            Some(h) => hex4(v@, i as int) == h as int && h <= 0xFFFF,
            None => hex4(v@, i as int) < 0,
        },
{
    if v.len() - i < 4 {
        return None;
    }
    let d0 = match hex_digit_exec(v[i]) {
        None => {
            return None;
        },
        Some(x) => x,
    };
    let d1 = match hex_digit_exec(v[i + 1]) {
        None => {
            return None;
        },
        Some(x) => x,
    };
    let d2 = match hex_digit_exec(v[i + 2]) {
        None => {
            return None;
        },
        Some(x) => x,
    };
    let d3 = match hex_digit_exec(v[i + 3]) {
        None => {
            return None;
        },
        Some(x) => x,
    };
    Some((d0 as u32) * 4096 + (d1 as u32) * 256 + (d2 as u32) * 16 + (d3 as u32))
}

/// Append the UTF-8 encoding of the scalar `cp`.
fn push_utf8(out: &mut Vec<u8>, cp: u32)
    requires
        cp <= 0x10FFFF,
    ensures
        final(out)@ == old(out)@ + utf8_enc(cp as int),
{
    if cp < 0x80 {
        out.push(cp as u8);
        proof {
            assert(out@ =~= old(out)@ + utf8_enc(cp as int));
        }
    } else if cp < 0x800 {
        out.push((0xC0 + cp / 0x40) as u8);
        out.push((0x80 + cp % 0x40) as u8);
        proof {
            assert(out@ =~= old(out)@ + utf8_enc(cp as int));
        }
    } else if cp < 0x10000 {
        out.push((0xE0 + cp / 0x1000) as u8);
        out.push((0x80 + (cp / 0x40) % 0x40) as u8);
        out.push((0x80 + cp % 0x40) as u8);
        proof {
            assert(out@ =~= old(out)@ + utf8_enc(cp as int));
        }
    } else {
        out.push((0xF0 + cp / 0x40000) as u8);
        out.push((0x80 + (cp / 0x1000) % 0x40) as u8);
        out.push((0x80 + (cp / 0x40) % 0x40) as u8);
        out.push((0x80 + cp % 0x40) as u8);
        proof {
            assert(out@ =~= old(out)@ + utf8_enc(cp as int));
        }
    }
}

/// Decode a string body from `i0`, the opening quote already
/// consumed.
fn parse_jstring_exec(v: &Vec<u8>, i0: usize) -> (r: Option<(Vec<u8>, usize)>)
    requires
        i0 <= v@.len(),
    ensures
        match r {
            Some(p) => jstring_body(v@, i0 as int) == Some((p.0@, p.1 as int)),
            None => jstring_body(v@, i0 as int) is None,
        },
{
    let mut acc: Vec<u8> = Vec::new();
    let mut i: usize = i0;
    loop
        invariant
            i0 <= i <= v@.len(),
            ({
                match jstring_body(v@, i as int) {
                    None => jstring_body(v@, i0 as int) is None,
                    Some(p) => jstring_body(v@, i0 as int) == Some((acc@ + p.0, p.1)),
                }
            }),
        decreases v@.len() - i,
    {
        if i >= v.len() {
            return None;
        }
        let b = v[i];
        if b == 34 {
            proof {
                assert(acc@ + Seq::<u8>::empty() =~= acc@);
            }
            return Some((acc, i + 1));
        }
        let ghost iprev = i as int;
        let ghost accprev = acc@;
        let ghost mut head: Seq<u8> = Seq::empty();
        if b == 92 {
            if v.len() - i < 2 {
                return None;
            }
            let e = v[i + 1];
            if e == 117 {
                if v.len() - i < 6 {
                    return None;
                }
                let h = match hex4_exec(v, i + 2) {
                    None => {
                        return None;
                    },
                    Some(h) => h,
                };
                if 0xD800 <= h && h <= 0xDBFF {
                    if v.len() - i < 12 {
                        return None;
                    }
                    if !(v[i + 6] == 92 && v[i + 7] == 117) {
                        return None;
                    }
                    let h2 = match hex4_exec(v, i + 8) {
                        None => {
                            return None;
                        },
                        Some(h2) => h2,
                    };
                    if !(0xDC00 <= h2 && h2 <= 0xDFFF) {
                        return None;
                    }
                    let cp = 0x10000 + (h - 0xD800) * 0x400 + (h2 - 0xDC00);
                    proof {
                        head = utf8_enc(cp as int);
                    }
                    push_utf8(&mut acc, cp);
                    i = i + 12;
                } else if 0xDC00 <= h && h <= 0xDFFF {
                    return None;
                } else {
                    proof {
                        head = utf8_enc(h as int);
                    }
                    push_utf8(&mut acc, h);
                    i = i + 6;
                }
            } else {
                let c: u8;
                if e == 34 {
                    c = 34;
                } else if e == 92 {
                    c = 92;
                } else if e == 47 {
                    c = 47;
                } else if e == 98 {
                    c = 8;
                } else if e == 102 {
                    c = 12;
                } else if e == 110 {
                    c = 10;
                } else if e == 114 {
                    c = 13;
                } else if e == 116 {
                    c = 9;
                } else {
                    return None;
                }
                proof {
                    head = seq![c];
                }
                acc.push(c);
                i = i + 2;
            }
        } else if b < 32 {
            return None;
        } else {
            proof {
                head = seq![b];
            }
            acc.push(b);
            i = i + 1;
        }
        proof {
            assert(acc@ =~= accprev + head);
            match jstring_body(v@, i as int) {
                None => {
                    assert(jstring_body(v@, iprev) is None);
                },
                Some(p) => {
                    assert(jstring_body(v@, iprev) == Some((head + p.0, p.1)));
                    assert(accprev + (head + p.0) =~= (accprev + head) + p.0);
                },
            }
        }
    }
}

/// Skip one ignored value.
#[verifier::rlimit(100)]
fn skip_value_exec(v: &Vec<u8>, i: usize, d: u32) -> (r: Option<usize>)
    requires
        i <= v@.len(),
    ensures
        match r {
            Some(j) => skip_value(v@, i as int, d as nat) == Some(j as int) && i < j <= v@.len(),
            None => skip_value(v@, i as int, d as nat) is None,
        },
    decreases d, v@.len() - i, 0int,
{
    proof {
        lemma_skip_value_ge(v@, i as int, d as nat);
    }
    let n = v.len();
    if i >= n {
        return None;
    }
    let b = v[i];
    if b == 34 {
        match parse_jstring_exec(v, i + 1) {
            None => None,
            Some(p) => Some(p.1),
        }
    } else if b == 45 || (48 <= b && b <= 57) {
        let mut e: usize = i;
        while e < n && (48 <= v[e] && v[e] <= 57 || v[e] == 45 || v[e] == 43 || v[e] == 46
            || v[e] == 101 || v[e] == 69)
            invariant
                i <= e <= n,
                n == v@.len(),
                forall|k: int| i <= k < e ==> is_num_byte(v@[k]),
            decreases n - e,
        {
            e += 1;
        }
        proof {
            lemma_num_run_is(v@, i as int, e - i);
        }
        Some(e)
    } else if b == 116 {
        if n - i >= 4 && v[i + 1] == 114 && v[i + 2] == 117 && v[i + 3] == 101 {
            proof {
                assert(v@.subrange(i as int, i as int + 4) =~= seq![116u8, 114u8, 117u8, 101u8]);
            }
            Some(i + 4)
        } else {
            None
        }
    } else if b == 110 {
        if n - i >= 4 && v[i + 1] == 117 && v[i + 2] == 108 && v[i + 3] == 108 {
            proof {
                assert(v@.subrange(i as int, i as int + 4) =~= seq![110u8, 117u8, 108u8, 108u8]);
            }
            Some(i + 4)
        } else {
            None
        }
    } else if b == 102 {
        if n - i >= 5 && v[i + 1] == 97 && v[i + 2] == 108 && v[i + 3] == 115 && v[i + 4]
            == 101 {
            proof {
                assert(v@.subrange(i as int, i as int + 5) =~= seq![
                    102u8,
                    97u8,
                    108u8,
                    115u8,
                    101u8,
                ]);
            }
            Some(i + 5)
        } else {
            None
        }
    } else if b == 123 {
        let w = skip_ws_exec(v, i + 1);
        if w < n && v[w] == 125 {
            Some(w + 1)
        } else if d == 0 {
            None
        } else {
            skip_members_exec(v, w, d - 1)
        }
    } else if b == 91 {
        let w = skip_ws_exec(v, i + 1);
        if w < n && v[w] == 93 {
            Some(w + 1)
        } else if d == 0 {
            None
        } else {
            skip_items_exec(v, w, d - 1)
        }
    } else {
        None
    }
}

/// Skip the members of an ignored object.
fn skip_members_exec(v: &Vec<u8>, i: usize, d: u32) -> (r: Option<usize>)
    requires
        i <= v@.len(),
    ensures
        match r {
            Some(j) => skip_members(v@, i as int, d as nat) == Some(j as int) && i < j
                <= v@.len(),
            None => skip_members(v@, i as int, d as nat) is None,
        },
    decreases d, v@.len() - i, 1int,
{
    proof {
        lemma_skip_members_ge(v@, i as int, d as nat);
    }
    let n = v.len();
    if i >= n || v[i] != 34 {
        return None;
    }
    let p = match parse_jstring_exec(v, i + 1) {
        None => {
            return None;
        },
        Some(p) => p,
    };
    proof {
        lemma_jstring_body(v@, i as int + 1);
    }
    let jw = skip_ws_exec(v, p.1);
    if jw >= n || v[jw] != 58 {
        return None;
    }
    let vw = skip_ws_exec(v, jw + 1);
    let j2 = match skip_value_exec(v, vw, d) {
        None => {
            return None;
        },
        Some(j2) => j2,
    };
    let j3 = skip_ws_exec(v, j2);
    if j3 < n && v[j3] == 44 {
        let i2 = skip_ws_exec(v, j3 + 1);
        skip_members_exec(v, i2, d)
    } else if j3 < n && v[j3] == 125 {
        Some(j3 + 1)
    } else {
        None
    }
}

/// Skip the items of an ignored array.
fn skip_items_exec(v: &Vec<u8>, i: usize, d: u32) -> (r: Option<usize>)
    requires
        i <= v@.len(),
    ensures
        match r {
            Some(j) => skip_items(v@, i as int, d as nat) == Some(j as int) && i < j <= v@.len(),
            None => skip_items(v@, i as int, d as nat) is None,
        },
    decreases d, v@.len() - i, 1int,
{
    proof {
        lemma_skip_items_ge(v@, i as int, d as nat);
    }
    let j = match skip_value_exec(v, i, d) {
        None => {
            return None;
        },
        Some(j) => j,
    };
    let jw = skip_ws_exec(v, j);
    if jw < v.len() && v[jw] == 44 {
        let i2 = skip_ws_exec(v, jw + 1);
        skip_items_exec(v, i2, d)
    } else if jw < v.len() && v[jw] == 93 {
        Some(jw + 1)
    } else {
        None
    }
}

/// The number a short digit run denotes.
fn digits_value_exec(v: &Vec<u8>, from: usize, to: usize) -> (r: u32)
    requires
        from <= to <= v@.len(),
        to - from <= 5,
        forall|j: int| from <= j < to ==> is_digit(v@[j]),
    ensures
        r == digits_val(v@.subrange(from as int, to as int)),
{
    let mut acc: u32 = 0;
    let mut i: usize = from;
    proof {
        assert(v@.subrange(from as int, from as int) =~= Seq::<u8>::empty());
    }
    while i < to
        invariant
            from <= i <= to,
            to <= v@.len(),
            to - from <= 5,
            forall|j: int| from <= j < to ==> is_digit(v@[j]),
            acc == digits_val(v@.subrange(from as int, i as int)),
            0 <= digits_val(v@.subrange(from as int, i as int)) < pow10((i - from) as nat),
        decreases to - i,
    {
        let b = v[i];
        proof {
            let t1 = v@.subrange(from as int, i as int + 1);
            assert(t1.drop_last() =~= v@.subrange(from as int, i as int));
            assert(t1.last() == v@[i as int]);
            assert forall|j: int| 0 <= j < t1.len() implies is_digit(t1[j]) by {
                assert(t1[j] == v@[from + j]);
            }
            lemma_digits_val_bound(t1);
            lemma_pow10((i - from + 1) as nat, 5nat);
            reveal_with_fuel(pow10, 7);
            assert(pow10(5nat) == 100000);
        }
        acc = acc * 10 + ((b - 48) as u32);
        i += 1;
    }
    acc
}

/// Decode the error payload. Succeeds exactly on the grammar above,
/// with the status and the title it carries.
#[verifier::rlimit(100)]
pub fn decode_horizon_error(body: &Vec<u8>) -> (r: Option<HorizonError>)
    ensures
        match r {
            Some(e) => parse_horizon_error(body@) == Some((e.status, e.title@)),
            None => parse_horizon_error(body@) is None,
        },
{
    let n = body.len();
    let o = skip_ws_exec(body, 0);
    if o >= n || body[o] != 123 {
        return None;
    }
    let w = skip_ws_exec(body, o + 1);
    if w < n && body[w] == 125 {
        return None;
    }
    let mut i: usize = w;
    let mut st: Option<u16> = None;
    let mut ti: Option<Vec<u8>> = None;
    loop
        invariant
            0 <= i <= body@.len(),
            n == body@.len(),
            parse_horizon_error(body@) == parse_members(
                body@,
                i as int,
                st,
                opt_bytes_view(ti),
            ),
        decreases body@.len() - i,
    {
        if i >= n || body[i] != 34 {
            return None;
        }
        let kp = match parse_jstring_exec(body, i + 1) {
            None => {
                return None;
            },
            Some(p) => p,
        };
        proof {
            lemma_jstring_body(body@, i as int + 1);
        }
        let key = kp.0;
        let jw = skip_ws_exec(body, kp.1);
        if jw >= n || body[jw] != 58 {
            return None;
        }
        let vw = skip_ws_exec(body, jw + 1);
        let j2: usize;
        if is_key_status(&key) {
            if vw >= n {
                return None;
            }
            let b0 = body[vw];
            if b0 < 48 || b0 > 57 {
                return None;
            }
            let mut e: usize = vw;
            while e < n && 48 <= body[e] && body[e] <= 57
                invariant
                    vw <= e <= n,
                    n == body@.len(),
                    forall|k: int| vw <= k < e ==> is_digit(body@[k]),
                decreases n - e,
            {
                e += 1;
            }
            proof {
                lemma_digit_run_is(body@, vw as int, e - vw);
            }
            let run = e - vw;
            if b0 == 48 && run > 1 {
                return None;
            }
            if run > 5 {
                proof {
                    let dd = body@.subrange(vw as int, e as int);
                    assert(dd[0] == body@[vw as int]);
                    assert forall|j: int| 0 <= j < dd.len() implies is_digit(dd[j]) by {
                        assert(dd[j] == body@[vw + j]);
                    }
                    lemma_digits_val_lower(dd);
                    lemma_pow10(5nat, (dd.len() - 1) as nat);
                    reveal_with_fuel(pow10, 7);
                    assert(pow10(5nat) == 100000);
                    assert(digits_val(dd) > 65535);
                }
                return None;
            }
            let val = digits_value_exec(body, vw, e);
            if val > 65535 {
                return None;
            }
            st = Some(val as u16);
            j2 = e;
        } else if is_key_title(&key) {
            if vw >= n || body[vw] != 34 {
                return None;
            }
            let tp = match parse_jstring_exec(body, vw + 1) {
                None => {
                    return None;
                },
                Some(p) => p,
            };
            proof {
                lemma_jstring_body(body@, vw as int + 1);
            }
            ti = Some(tp.0);
            j2 = tp.1;
        } else {
            j2 = match skip_value_exec(body, vw, 128) {
                None => {
                    return None;
                },
                Some(j) => j,
            };
        }
        let j3 = skip_ws_exec(body, j2);
        if j3 < n && body[j3] == 44 {
            i = skip_ws_exec(body, j3 + 1);
        } else if j3 < n && body[j3] == 125 {
            if skip_ws_exec(body, j3 + 1) == n {
                match (st, ti) {
                    (Some(a), Some(b)) => {
                        return Some(HorizonError { status: a, title: b });
                    },
                    _ => {
                        return None;
                    },
                }
            } else {
                return None;
            }
        } else {
            return None;
        }
    }
}

/// The lowercase hexadecimal digit for `n`.
pub open spec fn hex_digit_of(n: int) -> u8 {
    if n < 10 {
        (48 + n) as u8
    } else {
        (87 + n) as u8
    }
}

/// The escaped form of one title byte: quotes and backslashes carry a
/// backslash, control bytes become a `\u` form, and every other byte
/// stands as itself.
pub open spec fn enc_byte(b: u8) -> Seq<u8> {
    if b == 34 {
        seq![92u8, 34u8]
    } else if b == 92 {
        seq![92u8, 92u8]
    } else if b < 32 {
        seq![92u8, 117u8, 48u8, 48u8, hex_digit_of(b as int / 16), hex_digit_of(b as int % 16)]
    } else {
        seq![b]
    }
}

/// The escaped form of a title.
pub open spec fn enc_string(t: Seq<u8>) -> Seq<u8>
    decreases t.len(),
{
    if t.len() == 0 {
        Seq::empty()
    } else {
        enc_byte(t[0]) + enc_string(t.skip(1))
    }
}

/// Escaping one more byte extends the escaped form at its end.
proof fn lemma_enc_string_snoc(u: Seq<u8>, b: u8)
    ensures
        enc_string(u.push(b)) == enc_string(u) + enc_byte(b),
    decreases u.len(),
{
    reveal_with_fuel(enc_string, 3);
    if u.len() == 0 {
        assert(u.push(b)[0] == b);
        assert(u.push(b).skip(1) =~= Seq::<u8>::empty());
        assert(enc_string(u.push(b)) == enc_byte(b) + enc_string(Seq::<u8>::empty()));
        assert(enc_byte(b) + Seq::<u8>::empty() =~= enc_byte(b));
        assert(enc_string(u) + enc_byte(b) =~= enc_byte(b));
        assert(enc_string(u.push(b)) =~= enc_string(u) + enc_byte(b));
    } else {
        assert(u.push(b)[0] == u[0]);
        assert(u.push(b).skip(1) =~= u.skip(1).push(b));
        lemma_enc_string_snoc(u.skip(1), b);
        let lhs = enc_string(u.push(b));
        assert(lhs == enc_byte(u[0]) + enc_string(u.skip(1).push(b)));
        assert(enc_string(u.skip(1).push(b)) == enc_string(u.skip(1)) + enc_byte(b));
        assert(lhs =~= enc_string(u) + enc_byte(b));
    }
}

/// The canonical encoding of a payload: the status and the title, in
/// that order, with no blanks.
pub open spec fn encode_err(st: u16, ti: Seq<u8>) -> Seq<u8> {
    seq![123u8, 34u8] + status_key() + seq![34u8, 58u8] + dec_digits(st as int) + seq![
        44u8,
        34u8,
    ] + title_key() + seq![34u8, 58u8, 34u8] + enc_string(ti) + seq![34u8, 125u8]
}

/// Write the decimal digits of `n` onto `out`.
fn push_digits(n: u16, out: &mut Vec<u8>)
    ensures
        final(out)@ == old(out)@ + dec_digits(n as int),
    decreases n,
{
    if n <= 9 {
        out.push(48 + (n as u8));
        proof {
            assert(out@ =~= old(out)@ + dec_digits(n as int));
        }
    } else {
        push_digits(n / 10, out);
        out.push(48 + ((n % 10) as u8));
        proof {
            assert(out@ =~= old(out)@ + dec_digits(n as int));
        }
    }
}

/// Encode a payload in the canonical form.
pub fn encode_horizon_error(e: &HorizonError) -> (r: Vec<u8>)
    ensures
        r@ == encode_err(e.status, e.title@),
{
    let mut r: Vec<u8> = Vec::new();
    r.push(123);
    r.push(34);
    r.push(115);
    r.push(116);
    r.push(97);
    r.push(116);
    r.push(117);
    r.push(115);
    r.push(34);
    r.push(58);
    push_digits(e.status, &mut r);
    r.push(44);
    r.push(34);
    r.push(116);
    r.push(105);
    r.push(116);
    r.push(108);
    r.push(101);
    r.push(34);
    r.push(58);
    r.push(34);
    let ghost mid = r@;
    let mut k: usize = 0;
    proof {
        assert(e.title@.take(0) =~= Seq::<u8>::empty());
        assert(mid + Seq::<u8>::empty() =~= mid);
    }
    while k < e.title.len()
        invariant
            0 <= k <= e.title@.len(),
            r@ == mid + enc_string(e.title@.take(k as int)),
        decreases e.title@.len() - k,
    {
        let b = e.title[k];
        if b == 34 {
            r.push(92);
            r.push(34);
        } else if b == 92 {
            r.push(92);
            r.push(92);
        } else if b < 32 {
            r.push(92);
            r.push(117);
            r.push(48);
            r.push(48);
            let hi = b / 16;
            let lo = b % 16;
            r.push(if hi < 10 { 48 + hi } else { 87 + hi });
            r.push(if lo < 10 { 48 + lo } else { 87 + lo });
        } else {
            r.push(b);
        }
        proof {
            lemma_enc_string_snoc(e.title@.take(k as int), e.title@[k as int]);
            assert(e.title@.take(k as int).push(e.title@[k as int]) =~= e.title@.take(
                k as int + 1,
            ));
            assert(r@ =~= mid + enc_string(e.title@.take(k as int + 1)));
        }
        k += 1;
    }
    proof {
        assert(e.title@.take(e.title@.len() as int) =~= e.title@);
    }
    r.push(34);
    r.push(125);
    proof {
        assert(r@ =~= encode_err(e.status, e.title@));
    }
    r
}

/// Bytes that need no escaping encode as themselves.
proof fn lemma_enc_string_plain(t: Seq<u8>)
    requires
        forall|j: int| 0 <= j < t.len() ==> t[j] != 34 && t[j] != 92 && t[j] >= 32,
    ensures
        enc_string(t) == t,
    decreases t.len(),
{
    if t.len() > 0 {
        assert(enc_byte(t[0]) =~= seq![t[0]]);
        assert(forall|j: int| 0 <= j < t.skip(1).len() ==> t.skip(1)[j] == t[j + 1]);
        lemma_enc_string_plain(t.skip(1));
        assert(seq![t[0]] + t.skip(1) =~= t);
    }
}

/// A title's escaped form, between quotes, decodes back to the title.
#[verifier::rlimit(100)]
proof fn lemma_jstring_round(s: Seq<u8>, i: int, t: Seq<u8>)
    requires
        0 <= i,
        i + enc_string(t).len() + 1 <= s.len(),
        s.subrange(i, i + enc_string(t).len()) == enc_string(t),
        s[i + enc_string(t).len()] == 34,
    ensures
        jstring_body(s, i) == Some((t, i + enc_string(t).len() + 1)),
    decreases t.len(),
{
    let m = enc_string(t).len() as int;
    if t.len() == 0 {
        assert(s[i] == 34);
    } else {
        let b = t[0];
        let e = enc_byte(b);
        let rest = t.skip(1);
        assert(enc_string(t) == e + enc_string(rest));
        let k = e.len() as int;
        let mr = enc_string(rest).len() as int;
        assert(m == k + mr);
        assert forall|x: int| 0 <= x < k implies s[i + x] == e[x] by {
            assert(s.subrange(i, i + m)[x] == s[i + x]);
            assert((e + enc_string(rest))[x] == e[x]);
        }
        assert(s.subrange(i + k, i + k + mr) =~= enc_string(rest)) by {
            assert forall|x: int| 0 <= x < mr implies s.subrange(i + k, i + k + mr)[x]
                == enc_string(rest)[x] by {
                assert(s.subrange(i + k, i + k + mr)[x] == s[i + k + x]);
                assert(s[i + k + x] == s.subrange(i, i + m)[k + x]);
                assert((e + enc_string(rest))[k + x] == enc_string(rest)[x]);
            }
        }
        lemma_jstring_round(s, i + k, rest);
        assert(k >= 1);
        assert(s[i + 0] == e[0]);
        if k >= 2 {
            assert(s[i + 1] == e[1]);
        }
        if k >= 6 {
            assert(s[i + 2] == e[2] && s[i + 3] == e[3] && s[i + 4] == e[4] && s[i + 5]
                == e[5]);
        }
        if b == 34 {
            assert(s[i] == 92 && s[i + 1] == 34);
            assert(seq![34u8] + rest =~= t);
        } else if b == 92 {
            assert(s[i] == 92 && s[i + 1] == 92);
            assert(seq![92u8] + rest =~= t);
        } else if b < 32 {
            assert(s[i] == 92 && s[i + 1] == 117);
            assert(s[i + 2] == 48 && s[i + 3] == 48);
            assert(s[i + 4] == hex_digit_of(b as int / 16));
            assert(s[i + 5] == hex_digit_of(b as int % 16));
            assert(0 <= b as int / 16 < 2 && 0 <= b as int % 16 < 16);
            assert(hex_val(s[i + 2]) == 0 && hex_val(s[i + 3]) == 0);
            assert(hex_val(s[i + 4]) == b as int / 16);
            assert(hex_val(s[i + 5]) == b as int % 16);
            assert(hex4(s, i + 2) == (b as int / 16) * 16 + (b as int % 16));
            vstd::arithmetic::div_mod::lemma_fundamental_div_mod(b as int, 16);
            assert(hex4(s, i + 2) == b as int);
            assert(utf8_enc(b as int) =~= seq![b]);
            assert(utf8_enc(b as int) + rest =~= t);
        } else {
            assert(s[i] == b);
            assert(seq![b] + rest =~= t);
        }
    }
}

/// The second member of the canonical encoding parses as the title
/// and closes the object.
#[verifier::rlimit(100)]
proof fn lemma_round_trip_title(s: Seq<u8>, l: int, st: u16, ti: Seq<u8>)
    requires
        l >= 1,
        s.len() == 22 + l + enc_string(ti).len(),
        s[11 + l] == 34,
        s.subrange(12 + l, 17 + l) == title_key(),
        s[17 + l] == 34,
        s[18 + l] == 58,
        s[19 + l] == 34,
        s.subrange(20 + l, 20 + l + enc_string(ti).len()) == enc_string(ti),
        s[20 + l + enc_string(ti).len()] == 34,
        s[21 + l + enc_string(ti).len()] == 125,
    ensures
        parse_members(s, 11 + l, Some(st), None) == Some((st, ti)),
{
    let m = enc_string(ti).len() as int;
    assert(forall|j: int| 0 <= j < title_key().len() ==> title_key()[j] != 34 && title_key()[j]
        != 92 && title_key()[j] >= 32);
    lemma_enc_string_plain(title_key());
    lemma_jstring_round(s, 12 + l, title_key());
    assert(jstring_body(s, 12 + l) == Some((title_key(), 18 + l)));
    assert(ws_run(s, 18 + l) == 0);
    assert(ws_run(s, 19 + l) == 0);
    lemma_jstring_round(s, 20 + l, ti);
    assert(jstring_body(s, 20 + l) == Some((ti, 21 + l + m)));
    assert(title_key() != status_key()) by {
        assert(title_key().len() != status_key().len());
    }
    assert(member_value(s, 19 + l, title_key(), Some(st), None) == Some(
        (Some(st), Some(ti), 21 + l + m),
    ));
    assert(ws_run(s, 21 + l + m) == 0);
    assert(ws_run(s, 22 + l + m) == 0);
    assert(skip_ws(s, 22 + l + m) == s.len());
}

/// Where each piece of the canonical encoding stands.
#[verifier::rlimit(100)]
proof fn lemma_round_trip_zones(s: Seq<u8>, st: u16, ti: Seq<u8>)
    requires
        s == encode_err(st, ti),
    ensures
        ({
            let l = dec_digits(st as int).len() as int;
            let m = enc_string(ti).len() as int;
            &&& s.len() == 22 + l + m
            &&& s[0] == 123
            &&& s[1] == 34
            &&& s.subrange(2, 8) == status_key()
            &&& s[8] == 34
            &&& s[9] == 58
            &&& (forall|k: int| 0 <= k < l ==> s[10 + k] == dec_digits(st as int)[k])
            &&& s[10 + l] == 44
            &&& s[11 + l] == 34
            &&& s.subrange(12 + l, 17 + l) == title_key()
            &&& s[17 + l] == 34
            &&& s[18 + l] == 58
            &&& s[19 + l] == 34
            &&& s.subrange(20 + l, 20 + l + m) == enc_string(ti)
            &&& s[20 + l + m] == 34
            &&& s[21 + l + m] == 125
        }),
{
    let pre = seq![123u8, 34u8, 115u8, 116u8, 97u8, 116u8, 117u8, 115u8, 34u8, 58u8];
    let mid = seq![44u8, 34u8, 116u8, 105u8, 116u8, 108u8, 101u8, 34u8, 58u8, 34u8];
    let tail = seq![34u8, 125u8];
    let dd = dec_digits(st as int);
    lemma_dec_digits(st as int);
    let et = enc_string(ti);
    let l = dd.len() as int;
    let m = et.len() as int;
    assert(s =~= pre + dd + mid + et + tail);
    assert forall|k: int| 0 <= k < 10 implies s[k] == pre[k] by {
        assert(s[k] == (pre + dd + mid + et)[k]);
        assert((pre + dd + mid + et)[k] == (pre + dd + mid)[k]);
        assert((pre + dd + mid)[k] == (pre + dd)[k]);
        assert((pre + dd)[k] == pre[k]);
    }
    assert forall|k: int| 0 <= k < l implies s[10 + k] == dd[k] by {
        assert(s[10 + k] == (pre + dd + mid + et)[10 + k]);
        assert((pre + dd + mid + et)[10 + k] == (pre + dd + mid)[10 + k]);
        assert((pre + dd + mid)[10 + k] == (pre + dd)[10 + k]);
        assert((pre + dd)[10 + k] == dd[k]);
    }
    assert forall|k: int| 0 <= k < 10 implies s[10 + l + k] == mid[k] by {
        assert(s[10 + l + k] == (pre + dd + mid + et)[10 + l + k]);
        assert((pre + dd + mid + et)[10 + l + k] == (pre + dd + mid)[10 + l + k]);
        assert((pre + dd + mid)[10 + l + k] == mid[k]);
    }
    assert forall|k: int| 0 <= k < m implies s[20 + l + k] == et[k] by {
        assert(s[20 + l + k] == (pre + dd + mid + et)[20 + l + k]);
        assert((pre + dd + mid + et)[20 + l + k] == et[k]);
    }
    assert(s[20 + l + m] == tail[0]);
    assert(s[21 + l + m] == tail[1]);
    assert(s.subrange(2, 8) =~= status_key());
    assert(s.subrange(12 + l, 17 + l) =~= title_key());
    assert(s.subrange(20 + l, 20 + l + m) =~= et);
}

/// The first member of the canonical encoding parses as the status.
#[verifier::rlimit(100)]
proof fn lemma_round_trip_status(s: Seq<u8>, st: u16, ti: Seq<u8>)
    requires
        ({
            let l = dec_digits(st as int).len() as int;
            &&& s.len() == 22 + l + enc_string(ti).len()
            &&& s[1] == 34
            &&& s.subrange(2, 8) == status_key()
            &&& s[8] == 34
            &&& s[9] == 58
            &&& (forall|k: int| 0 <= k < l ==> s[10 + k] == dec_digits(st as int)[k])
            &&& s[10 + l] == 44
            &&& s[11 + l] == 34
        }),
    ensures
        parse_members(s, 1, None, None) == parse_members(
            s,
            11 + dec_digits(st as int).len() as int,
            Some(st),
            None,
        ),
{
    let dd = dec_digits(st as int);
    lemma_dec_digits(st as int);
    let l = dd.len() as int;
    assert(forall|j: int| 0 <= j < status_key().len() ==> status_key()[j] != 34
        && status_key()[j] != 92 && status_key()[j] >= 32);
    lemma_enc_string_plain(status_key());
    lemma_jstring_round(s, 2, status_key());
    assert(jstring_body(s, 2) == Some((status_key(), 9int)));
    assert(ws_run(s, 9) == 0);
    assert(s[10] == dd[0]);
    assert(is_digit(dd[0]));
    assert(ws_run(s, 10) == 0);
    assert forall|k: int| 10 <= k < 10 + l implies is_digit(s[k]) by {
        assert(s[k] == dd[k - 10]);
    }
    assert(!is_digit(44));
    lemma_digit_run_is(s, 10, l);
    assert(s.subrange(10, 10 + l) =~= dd);
    if s[10] == 48 {
        assert(st as int <= 9);
        assert(l == 1);
    }
    assert(member_value(s, 10, status_key(), None, None) == Some(
        (Some(st), None::<Seq<u8>>, 10 + l),
    ));
    assert(ws_run(s, 10 + l) == 0);
    assert(ws_run(s, 11 + l) == 0);
}

/// Decoding the canonical encoding of a payload gives the status and
/// the title back, for every status and every title: the codec loses
/// nothing.
#[verifier::rlimit(100)]
pub proof fn lemma_round_trip(st: u16, ti: Seq<u8>)
    ensures
        parse_horizon_error(encode_err(st, ti)) == Some((st, ti)),
{
    let dd = dec_digits(st as int);
    lemma_dec_digits(st as int);
    let l = dd.len() as int;
    let s = encode_err(st, ti);
    lemma_round_trip_zones(s, st, ti);
    assert(ws_run(s, 0) == 0);
    assert(ws_run(s, 1) == 0);
    assert(parse_horizon_error(s) == parse_members(s, 1, None, None));
    lemma_round_trip_status(s, st, ti);
    lemma_round_trip_title(s, l, st, ti);
}
} // verus!
