//! Byte-sequence helpers shared by the SSE frame decoder and the
//! error-payload codec: first-occurrence search, copies of ranges, and
//! decimal digit runs.

use vstd::prelude::*;

verus! {

/// Index of the first occurrence of `t` in `s`, if any.
pub open spec fn find_byte(s: Seq<u8>, t: u8) -> Option<int>
    decreases s.len(),
{
    if s.len() == 0 {
        None
    } else if s[0] == t {
        Some(0int)
    } else {
        match find_byte(s.skip(1), t) {
            None => None,
            Some(i) => Some(i + 1),
        }
    }
}

/// `find_byte` returns the least index holding `t`, or `None` when `t`
/// does not occur at all.
pub proof fn lemma_find_byte(s: Seq<u8>, t: u8)
    ensures
        match find_byte(s, t) {
            None => forall|j: int| 0 <= j < s.len() ==> s[j] != t,
            Some(i) => 0 <= i < s.len() && s[i] == t && (forall|j: int| 0 <= j < i ==> s[j] != t),
        },
    decreases s.len(),
{
    if s.len() != 0 && s[0] != t {
        lemma_find_byte(s.skip(1), t);
        match find_byte(s.skip(1), t) {
            None => {
                assert forall|j: int| 0 <= j < s.len() implies s[j] != t by {
                    if j >= 1 {
                        assert(s[j] == s.skip(1)[j - 1]);
                    }
                }
            },
            Some(i) => {
                assert(s[i + 1] == s.skip(1)[i]);
                assert forall|j: int| 0 <= j < i + 1 implies s[j] != t by {
                    if j >= 1 {
                        assert(s[j] == s.skip(1)[j - 1]);
                    }
                }
            },
        }
    }
}

/// The least index holding `t` is what `find_byte` returns.
pub proof fn lemma_find_byte_is(s: Seq<u8>, t: u8, i: int)
    requires
        0 <= i < s.len(),
        s[i] == t,
        forall|j: int| 0 <= j < i ==> s[j] != t,
    ensures
        find_byte(s, t) == Some(i),
{
    lemma_find_byte(s, t);
}

/// First index of `t` in `v`, if any.
pub fn find_byte_exec(v: &Vec<u8>, t: u8) -> (r: Option<usize>)
    ensures
        match r {
            None => find_byte(v@, t) is None,
            Some(i) => find_byte(v@, t) == Some(i as int),
        },
{
    let mut i: usize = 0;
    while i < v.len()
        invariant
            0 <= i <= v@.len(),
            forall|j: int| 0 <= j < i ==> v@[j] != t,
        decreases v@.len() - i,
    {
        if v[i] == t {
            proof {
                lemma_find_byte_is(v@, t, i as int);
            }
            return Some(i);
        }
        i += 1;
    }
    proof {
        lemma_find_byte(v@, t);
    }
    None
}

/// First index at or after `from` holding `t`, if any.
pub fn find_byte_from(v: &Vec<u8>, from: usize, t: u8) -> (r: Option<usize>)
    requires
        from <= v@.len(),
    ensures
        match r {
            None => find_byte(v@.skip(from as int), t) is None,
            Some(i) => from <= i < v@.len() && find_byte(v@.skip(from as int), t) == Some(
                i - from,
            ),
        },
{
    let mut i: usize = from;
    while i < v.len()
        invariant
            from <= i <= v@.len(),
            forall|j: int| from <= j < i ==> v@[j] != t,
        decreases v@.len() - i,
    {
        if v[i] == t {
            proof {
                assert forall|j: int| 0 <= j < i - from implies v@.skip(from as int)[j] != t by {
                    assert(v@.skip(from as int)[j] == v@[j + from]);
                }
                assert(v@.skip(from as int)[i - from] == v@[i as int]);
                lemma_find_byte_is(v@.skip(from as int), t, i - from);
            }
            return Some(i);
        }
        i += 1;
    }
    proof {
        lemma_find_byte(v@.skip(from as int), t);
        match find_byte(v@.skip(from as int), t) {
            Some(k) => {
                assert(v@.skip(from as int)[k] == v@[k + from]);
            },
            None => {},
        }
    }
    None
}

/// Copy of `v[from..to]`.
pub fn subvec(v: &Vec<u8>, from: usize, to: usize) -> (r: Vec<u8>)
    requires
        from <= to <= v@.len(),
    ensures
        r@ == v@.subrange(from as int, to as int),
{
    let mut r: Vec<u8> = Vec::new();
    let mut i: usize = from;
    while i < to
        invariant
            from <= i <= to,
            to <= v@.len(),
            r@ == v@.subrange(from as int, i as int),
        decreases to - i,
    {
        r.push(v[i]);
        i += 1;
        proof {
            assert(r@ =~= v@.subrange(from as int, i as int));
        }
    }
    r
}

/// A fresh copy of `v`.
pub fn clone_bytes(v: &Vec<u8>) -> (r: Vec<u8>)
    ensures
        r@ == v@,
{
    let r = subvec(v, 0, v.len());
    proof {
        assert(v@.subrange(0, v@.len() as int) =~= v@);
    }
    r
}

/// Append every byte of `src` to `dst`.
pub fn push_all(dst: &mut Vec<u8>, src: &Vec<u8>)
    ensures
        final(dst)@ == old(dst)@ + src@,
{
    let mut i: usize = 0;
    while i < src.len()
        invariant
            0 <= i <= src@.len(),
            dst@ == old(dst)@ + src@.take(i as int),
        decreases src@.len() - i,
    {
        dst.push(src[i]);
        i += 1;
        proof {
            assert(old(dst)@ + src@.take(i as int) =~= (old(dst)@ + src@.take(i as int - 1)).push(
                src@[i as int - 1],
            ));
        }
    }
    proof {
        assert(src@.take(src@.len() as int) =~= src@);
    }
}

/// The view of an optional byte string.
pub open spec fn opt_bytes_view(o: Option<Vec<u8>>) -> Option<Seq<u8>> {
    match o {
        None => None,
        Some(v) => Some(v@),
    }
}

/// An ASCII decimal digit.
pub open spec fn is_digit(b: u8) -> bool {
    48 <= b && b <= 57
}

/// Every byte of `s` is an ASCII decimal digit.
pub open spec fn all_digits(s: Seq<u8>) -> bool {
    forall|j: int| 0 <= j < s.len() ==> is_digit(s[j])
}

/// The number a run of decimal digits denotes, most significant first.
pub open spec fn digits_val(s: Seq<u8>) -> int
    decreases s.len(),
{
    if s.len() == 0 {
        0
    } else {
        digits_val(s.drop_last()) * 10 + (s.last() - 48)
    }
}

/// Ten to the `n`.
pub open spec fn pow10(n: nat) -> int
    decreases n,
{
    if n == 0 {
        1
    } else {
        10 * pow10((n - 1) as nat)
    }
}

/// Powers of ten are positive and nondecreasing.
pub proof fn lemma_pow10(a: nat, b: nat)
    requires
        a <= b,
    ensures
        1 <= pow10(a) <= pow10(b),
    decreases b,
{
    if a == b {
        if a > 0 {
            lemma_pow10((a - 1) as nat, (a - 1) as nat);
        }
    } else {
        lemma_pow10(a, (b - 1) as nat);
    }
}

/// Ten to the eighteenth, written out.
pub proof fn lemma_pow10_18()
    ensures
        pow10(18nat) == 1000000000000000000,
{
    reveal_with_fuel(pow10, 19);
}

/// A run of `n` digits denotes a number below ten to the `n`.
pub proof fn lemma_digits_val_bound(s: Seq<u8>)
    requires
        all_digits(s),
    ensures
        0 <= digits_val(s) < pow10(s.len()),
    decreases s.len(),
{
    if s.len() > 0 {
        assert(forall|j: int| 0 <= j < s.drop_last().len() ==> s.drop_last()[j] == s[j]);
        lemma_digits_val_bound(s.drop_last());
        assert(is_digit(s.last()));
    }
}

/// A digit run without a leading zero denotes at least ten to one
/// less than its length.
pub proof fn lemma_digits_val_lower(s: Seq<u8>)
    requires
        all_digits(s),
        s.len() >= 1,
        s[0] != 48,
    ensures
        digits_val(s) >= pow10((s.len() - 1) as nat),
    decreases s.len(),
{
    if s.len() == 1 {
        assert(s.drop_last() =~= Seq::<u8>::empty());
        assert(digits_val(Seq::<u8>::empty()) == 0);
        assert(is_digit(s[0]));
    } else {
        let f = s.drop_last();
        assert(f[0] == s[0]);
        assert(forall|j: int| 0 <= j < f.len() ==> f[j] == s[j]);
        lemma_digits_val_lower(f);
        assert(is_digit(s.last()));
        assert(pow10((s.len() - 1) as nat) == 10 * pow10((s.len() - 2) as nat));
    }
}

/// Appending digits to a digit run never shrinks the number it
/// denotes.
pub proof fn lemma_digits_val_mono(s: Seq<u8>, j: int)
    requires
        all_digits(s),
        0 <= j <= s.len(),
    ensures
        digits_val(s) >= digits_val(s.take(j)),
    decreases s.len() - j,
{
    if j < s.len() {
        let t = s.take(j + 1);
        assert(t.drop_last() =~= s.take(j));
        assert(t.last() == s[j]);
        assert(forall|k: int| 0 <= k < j ==> s.take(j)[k] == s[k]);
        lemma_digits_val_bound(s.take(j));
        assert(is_digit(s[j]));
        lemma_digits_val_mono(s, j + 1);
    } else {
        assert(s.take(j) =~= s);
    }
}

/// The decimal digits of `n`, most significant first.
pub open spec fn dec_digits(n: int) -> Seq<u8>
    decreases n,
{
    if n <= 9 {
        seq![(48 + (if 0 <= n { n } else { 0 })) as u8]
    } else {
        dec_digits(n / 10).push((48 + n % 10) as u8)
    }
}

/// The decimal digits of `n` form a digit run without a leading zero
/// (except for `n == 0` itself) that denotes `n`.
pub proof fn lemma_dec_digits(n: int)
    requires
        0 <= n,
    ensures
        dec_digits(n).len() >= 1,
        all_digits(dec_digits(n)),
        digits_val(dec_digits(n)) == n,
        n >= 1 ==> dec_digits(n)[0] != 48,
        n <= 9 ==> dec_digits(n).len() == 1,
    decreases n,
{
    if n <= 9 {
        let d = dec_digits(n);
        assert(d =~= seq![(48 + n) as u8]);
        assert(d.drop_last() =~= Seq::<u8>::empty());
        assert(digits_val(d) == digits_val(d.drop_last()) * 10 + (d.last() - 48));
        assert(digits_val(Seq::<u8>::empty()) == 0);
    } else {
        assert(n / 10 >= 1 && 0 <= n % 10 < 10) by (nonlinear_arith)
            requires
                n >= 10,
        ;
        let q = n / 10;
        let r = n % 10;
        lemma_dec_digits(q);
        let d = dec_digits(n);
        assert(d == dec_digits(q).push((48 + r) as u8));
        assert(d.drop_last() =~= dec_digits(q));
        assert(d.last() == (48 + r) as u8);
        assert(digits_val(d) == digits_val(dec_digits(q)) * 10 + ((48 + r) as u8 - 48));
        vstd::arithmetic::div_mod::lemma_fundamental_div_mod(n, 10);
        assert(digits_val(d) == n);
        assert forall|j: int| 0 <= j < d.len() implies is_digit(d[j]) by {
            if j < d.len() - 1 {
                assert(d[j] == dec_digits(q)[j]);
            }
        }
        assert(d[0] == dec_digits(q)[0]);
    }
}

} // verus!
