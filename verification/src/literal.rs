//! Integer literals: whether a literal's text is an integer literal, its
//! value, and reading it as a `u32`.

use vstd::prelude::*;
use vstd::string::*;
use crate::names::{is_xid_continue, is_xid_start, xid_continue, xid_start};
use crate::token::ErrorKind;
use crate::token::Expected;

verus! {

/// A decimal digit.
pub open spec fn is_dec(c: char) -> bool {
    '0' <= c && c <= '9'
}

/// A suffix of a literal may be an identifier: `_` or `XID_Start`, then
/// `XID_Continue` characters.
pub open spec fn xid_ok(s: Seq<char>) -> bool {
    &&& s.len() > 0
    &&& (s[0] == '_' || xid_start(s[0]))
    &&& forall|i: int| 1 <= i < s.len() ==> xid_continue(#[trigger] s[i])
}

/// After an `e` in a decimal literal, from position `i`: true when the `e`
/// starts the suffix, false when the literal is a float (an exponent with
/// digits, or a sign).
pub open spec fn exp_is_suffix(s: Seq<char>, i: int, has_exp: bool) -> bool
    decreases s.len() - i,
{
    if i < 0 || i >= s.len() {
        !has_exp
    } else {
        let c = s[i];
        if c == '_' {
            exp_is_suffix(s, i + 1, has_exp)
        } else if c == '-' || c == '+' {
            false
        } else if is_dec(c) {
            exp_is_suffix(s, i + 1, true)
        } else {
            !(has_exp && xid_ok(s.subrange(i, s.len() as int)))
        }
    }
}

/// The digits of a literal in `base` from position `i`, `value` read so far:
/// the value and the position where the suffix starts, or none when the text
/// is not an integer.
pub open spec fn lit_digits(s: Seq<char>, i: int, base: nat, value: nat) -> Option<(nat, int)>
    decreases s.len() - i,
{
    if i < 0 || i >= s.len() {
        Some((value, i))
    } else {
        let c = s[i];
        if is_dec(c) {
            let d = (c as int - '0' as int) as nat;
            if d >= base {
                None
            } else {
                lit_digits(s, i + 1, base, value * base + d)
            }
        } else if base > 10 && 'a' <= c && c <= 'f' {
            lit_digits(s, i + 1, base, value * base + (c as int - 'a' as int + 10) as nat)
        } else if base > 10 && 'A' <= c && c <= 'F' {
            lit_digits(s, i + 1, base, value * base + (c as int - 'A' as int + 10) as nat)
        } else if c == '_' {
            lit_digits(s, i + 1, base, value)
        } else if c == '.' && base == 10 {
            None
        } else if (c == 'e' || c == 'E') && base == 10 {
            if exp_is_suffix(s, i + 1, false) {
                Some((value, i))
            } else {
                None
            }
        } else {
            Some((value, i))
        }
    }
}

/// The base of the digits of `r` and where they start; base 0 when `r` does
/// not start like a number.
pub open spec fn lit_base(r: Seq<char>) -> (nat, int) {
    if r.len() >= 2 && r[0] == '0' && r[1] == 'x' {
        (16, 2)
    } else if r.len() >= 2 && r[0] == '0' && r[1] == 'o' {
        (8, 2)
    } else if r.len() >= 2 && r[0] == '0' && r[1] == 'b' {
        (2, 2)
    } else if r.len() >= 1 && is_dec(r[0]) {
        (10, 0)
    } else {
        (0, 0)
    }
}

/// The integer that the literal text `s` writes, as (negative, magnitude),
/// or none when `s` is not an integer literal.
pub open spec fn lit_int(s: Seq<char>) -> Option<(bool, nat)> {
    let neg = s.len() > 0 && s[0] == '-';
    let r = if neg {
        s.subrange(1, s.len() as int)
    } else {
        s
    };
    let (base, start) = lit_base(r);
    if !(s.len() > 0 && (is_dec(s[0]) || s[0] == '-')) || base == 0 {
        None
    } else {
        match lit_digits(r, start, base, 0) {
            None => None,
            Some((v, k)) => {
                let suffix = r.subrange(k, r.len() as int);
                if suffix.len() == 0 || xid_ok(suffix) {
                    Some((neg, v))
                } else {
                    None
                }
            },
        }
    }
}

/// The `u32` that the literal text `s` writes, or why it has none.
pub open spec fn lit_u32(s: Seq<char>) -> Result<u32, ErrorKind> {
    match lit_int(s) {
        None => Err(ErrorKind::Expected(Expected::IntLiteral)),
        Some((neg, v)) => if neg {
            Err(ErrorKind::InvalidDigit)
        } else if v > u32::MAX {
            Err(ErrorKind::IntTooLarge)
        } else {
            Ok(v as u32)
        },
    }
}

/// The cap of the value that the reader keeps.
pub open spec fn cap(v: nat) -> nat {
    if v > 0x1_0000_0000 {
        0x1_0000_0000
    } else {
        v
    }
}

proof fn lemma_cap_step(v: nat, base: nat, d: nat)
    requires
        base >= 2,
        d < base,
    ensures
        cap(v * base + d) == cap(cap(v) * base + d),
{
    if v > 0x1_0000_0000 {
        assert(v * base >= v) by (nonlinear_arith)
            requires
                base >= 2,
        ;
        assert(0x1_0000_0000 * base >= 0x1_0000_0000) by (nonlinear_arith)
            requires
                base >= 2,
        ;
    }
}

fn is_dec_char(c: char) -> (r: bool)
    ensures
        r == is_dec(c),
{
    '0' <= c && c <= '9'
}

/// Whether the characters of `s` from `i` on form an identifier suffix.
fn suffix_ok(s: &str, n: usize, i: usize) -> (r: bool)
    requires
        n == s@.len(),
        i < n,
    ensures
        r == xid_ok(s@.subrange(i as int, n as int)),
{
    let ghost suf = s@.subrange(i as int, n as int);
    let c0 = s.get_char(i);
    if !(c0 == '_' || is_xid_start(c0)) {
        return false;
    }
    let mut j = i + 1;
    while j < n
        invariant
            i < j <= n,
            n == s@.len(),
            suf == s@.subrange(i as int, n as int),
            forall|k: int| 1 <= k < j - i ==> xid_continue(#[trigger] suf[k]),
        decreases n - j,
    {
        if !is_xid_continue(s.get_char(j)) {
            assert(!xid_continue(suf[j - i]));
            return false;
        }
        j = j + 1;
    }
    true
}

/// Scans after an `e` from position `i` of `s`; `off` is where the digits'
/// text `r` starts in `s`.
fn exp_scan(s: &str, n: usize, off: usize, i: usize) -> (r: bool)
    requires
        n == s@.len(),
        off <= i <= n,
    ensures
        r == exp_is_suffix(s@.subrange(off as int, n as int), i - off, false),
{
    let ghost rr = s@.subrange(off as int, n as int);
    let mut j = i;
    let mut has_exp = false;
    while j < n
        invariant
            off <= i <= j <= n,
            n == s@.len(),
            rr == s@.subrange(off as int, n as int),
            exp_is_suffix(rr, i - off, false) == exp_is_suffix(rr, j - off, has_exp),
        decreases n - j,
    {
        let c = s.get_char(j);
        assert(c == rr[j - off]);
        if c == '_' {
        } else if c == '-' || c == '+' {
            return false;
        } else if is_dec_char(c) {
            has_exp = true;
        } else {
            if has_exp {
                let ok = suffix_ok(s, n, j);
                assert(s@.subrange(j as int, n as int) =~= rr.subrange(j - off, rr.len() as int));
                return !ok;
            }
            return true;
        }
        j = j + 1;
    }
    !has_exp
}

/// Reads the literal text `s` as a `u32`: the value of an integer literal in
/// any base, its suffix ignored.
pub fn parse_u32(s: &str) -> (r: Result<u32, ErrorKind>)
    ensures
        r == lit_u32(s@),
{
    let n = s.unicode_len();
    if n == 0 {
        return Err(ErrorKind::Expected(Expected::IntLiteral));
    }
    let c0 = s.get_char(0);
    if !(is_dec_char(c0) || c0 == '-') {
        return Err(ErrorKind::Expected(Expected::IntLiteral));
    }
    let neg = c0 == '-';
    let off: usize = if neg {
        1
    } else {
        0
    };
    let ghost r = if neg {
        s@.subrange(1, s@.len() as int)
    } else {
        s@
    };
    assert(r =~= s@.subrange(off as int, n as int));
    let rlen = n - off;
    let base: u64;
    let start: usize;
    if rlen >= 2 && s.get_char(off) == '0' && s.get_char(off + 1) == 'x' {
        base = 16;
        start = 2;
    } else if rlen >= 2 && s.get_char(off) == '0' && s.get_char(off + 1) == 'o' {
        base = 8;
        start = 2;
    } else if rlen >= 2 && s.get_char(off) == '0' && s.get_char(off + 1) == 'b' {
        base = 2;
        start = 2;
    } else if rlen >= 1 && is_dec_char(s.get_char(off)) {
        base = 10;
        start = 0;
    } else {
        return Err(ErrorKind::Expected(Expected::IntLiteral));
    }
    assert((base as nat, start as int) == lit_base(r));
    // The digits.
    let mut i = start;
    let mut val: u64 = 0;
    let ghost mut value: nat = 0;
    let mut k: usize = 0;
    let mut done = false;
    while i < rlen && !done
        invariant
            n == s@.len(),
            r == s@.subrange(off as int, n as int),
            rlen == r.len(),
            off + rlen == n,
            neg == (s@.len() > 0 && s@[0] == '-'),
            r == if neg {
                s@.subrange(1, s@.len() as int)
            } else {
                s@
            },
            s@.len() > 0 && (is_dec(s@[0]) || s@[0] == '-'),
            (base as nat, start as int) == lit_base(r),
            start <= i <= rlen,
            base == 16 || base == 10 || base == 8 || base == 2,
            val == cap(value),
            lit_digits(r, start as int, base as nat, 0) == if done {
                Some((value, k as int))
            } else {
                lit_digits(r, i as int, base as nat, value)
            },
            done ==> k <= rlen,
        decreases (rlen - i) as int + if done { 0int } else { 1int },
    {
        let c = s.get_char(off + i);
        assert(c == r[i as int]);
        let d: u64;
        if is_dec_char(c) {
            d = (c as u32 - '0' as u32) as u64;
            if d >= base {
                return Err(ErrorKind::Expected(Expected::IntLiteral));
            }
        } else if base > 10 && 'a' <= c && c <= 'f' {
            d = (c as u32 - 'a' as u32 + 10) as u64;
        } else if base > 10 && 'A' <= c && c <= 'F' {
            d = (c as u32 - 'A' as u32 + 10) as u64;
        } else if c == '_' {
            i = i + 1;
            continue;
        } else if c == '.' && base == 10 {
            return Err(ErrorKind::Expected(Expected::IntLiteral));
        } else if (c == 'e' || c == 'E') && base == 10 {
            if exp_scan(s, n, off, off + i + 1) {
                k = i;
                done = true;
                continue;
            } else {
                return Err(ErrorKind::Expected(Expected::IntLiteral));
            }
        } else {
            k = i;
            done = true;
            continue;
        }
        proof {
            lemma_cap_step(value, base as nat, d as nat);
            assert(val <= 0x1_0000_0000);
            assert(val * base <= 0x1_0000_0000 * 16) by (nonlinear_arith)
                requires
                    val <= 0x1_0000_0000,
                    base <= 16,
            ;
        }
        let next = val * base + d;
        val = if next > 0x1_0000_0000 {
            0x1_0000_0000
        } else {
            next
        };
        proof {
            value = value * base as nat + d as nat;
        }
        i = i + 1;
    }
    if !done {
        k = i;
    }
    // The suffix.
    if k < rlen {
        let ok = suffix_ok(s, n, off + k);
        assert(s@.subrange((off + k) as int, n as int) =~= r.subrange(k as int, r.len() as int));
        if !ok {
            return Err(ErrorKind::Expected(Expected::IntLiteral));
        }
    }
    if neg {
        Err(ErrorKind::InvalidDigit)
    } else if val > 0xFFFF_FFFF {
        Err(ErrorKind::IntTooLarge)
    } else {
        Ok(val as u32)
    }
}

// ---------------------------------------------------------------------------
// The value of the digits
// ---------------------------------------------------------------------------

/// A digit in `base` (2, 8, 10 or 16): `0`-`9` below the base, and in base
/// 16 also `a`-`f` and `A`-`F`.
pub open spec fn is_digit_in(base: nat, c: char) -> bool {
    ||| is_dec(c) && (c as int - '0' as int) < base
    ||| base == 16 && (('a' <= c && c <= 'f') || ('A' <= c && c <= 'F'))
}

/// A digit in `base`, or the separator `_`.
pub open spec fn digit_or_sep(base: nat, c: char) -> bool {
    is_digit_in(base, c) || c == '_'
}

/// A character that may start the suffix of an integer literal in any
/// base: no digit, no letter `a`-`f` or `A`-`F`, no `_` and no `.`.
pub open spec fn starts_suffix(c: char) -> bool {
    !is_digit_in(16, c) && c != '_' && c != '.'
}

/// The value of a digit: `0`-`9` are 0 to 9, `a`-`f` and `A`-`F` are 10 to
/// 15.
pub open spec fn digit_value(c: char) -> nat {
    if is_dec(c) {
        (c as int - '0' as int) as nat
    } else if 'a' <= c && c <= 'f' {
        (c as int - 'a' as int + 10) as nat
    } else {
        (c as int - 'A' as int + 10) as nat
    }
}

/// The number that the digits `h` write in `base` after the digits that
/// wrote `v`: each digit multiplies what came before by the base and adds
/// itself; `_` separates digits and counts for nothing.
pub open spec fn digits_after(base: nat, v: nat, h: Seq<char>) -> nat
    decreases h.len(),
{
    if h.len() == 0 {
        v
    } else if h[0] == '_' {
        digits_after(base, v, h.drop_first())
    } else {
        digits_after(base, v * base + digit_value(h[0]), h.drop_first())
    }
}

/// The number that the digits `h` write in `base`.
pub open spec fn digits_value(base: nat, h: Seq<char>) -> nat {
    digits_after(base, 0, h)
}

/// What a literal reads as when it writes the number `v`.
pub open spec fn as_u32(v: nat) -> Result<u32, ErrorKind> {
    if v <= u32::MAX {
        Ok(v as u32)
    } else {
        Err(ErrorKind::IntTooLarge)
    }
}

/// Digits and separators from `i` up to `k`, then the end or a character
/// that starts a suffix.
pub open spec fn digits_upto(base: nat, s: Seq<char>, i: int, k: int) -> bool {
    &&& 0 <= i <= k <= s.len()
    &&& forall|j: int| i <= j < k ==> digit_or_sep(base, #[trigger] s[j])
    &&& k < s.len() ==> starts_suffix(s[k])
}

proof fn lemma_digits(s: Seq<char>, i: int, k: int, base: nat, v: nat)
    requires
        base == 2 || base == 8 || base == 10 || base == 16,
        digits_upto(base, s, i, k),
    ensures
        lit_digits(s, i, base, v) == Some((digits_after(base, v, s.subrange(i, k)), k)),
    decreases k - i,
{
    let h = s.subrange(i, k);
    if i < k {
        assert(digit_or_sep(base, s[i]));
        assert(h[0] == s[i]);
        assert(h.drop_first() =~= s.subrange(i + 1, k));
        if s[i] == '_' {
            lemma_digits(s, i + 1, k, base, v);
        } else {
            lemma_digits(s, i + 1, k, base, v * base + digit_value(s[i]));
        }
    } else if k < s.len() {
        assert(starts_suffix(s[k]));
    }
}

/// A suffix that may follow the digits: nothing, or an identifier that
/// starts like a suffix.
pub open spec fn suffix_fits(suf: Seq<char>) -> bool {
    suf.len() == 0 || (xid_ok(suf) && starts_suffix(suf[0]))
}

proof fn lemma_prefixed(h: Seq<char>, suf: Seq<char>, x: char, base: nat)
    requires
        base == 2 || base == 8 || base == 16,
        x == (if base == 16 {
            'x'
        } else if base == 8 {
            'o'
        } else {
            'b'
        }),
        h.len() > 0,
        is_digit_in(base, h[0]),
        forall|k: int| 0 <= k < h.len() ==> digit_or_sep(base, #[trigger] h[k]),
        suffix_fits(suf),
    ensures
        lit_u32(seq!['0', x] + h + suf) == as_u32(digits_value(base, h)),
{
    let s = seq!['0', x] + h + suf;
    let k: int = 2 + h.len() as int;
    assert(s[0] == '0');
    assert(s[1] == x);
    assert forall|j: int| 2 <= j < k implies digit_or_sep(base, #[trigger] s[j]) by {
        assert(s[j] == h[j - 2]);
    }
    if k < s.len() {
        assert(s[k] == suf[0]);
    }
    lemma_digits(s, 2, k, base, 0);
    assert(s.subrange(2, k) =~= h);
    assert(s.subrange(k, s.len() as int) =~= suf);
}

/// Every character `0`-`9`, `a`-`f`, `A`-`F` after `0x` is a digit: `0x`
/// and hexadecimal digits (with `_` between them, and a suffix after them
/// or not) read as the number the digits write in base 16, or as too large
/// for a `u32`.
pub proof fn lemma_hex_literal(h: Seq<char>, suf: Seq<char>)
    requires
        h.len() > 0,
        is_digit_in(16, h[0]),
        forall|k: int| 0 <= k < h.len() ==> digit_or_sep(16, #[trigger] h[k]),
        suffix_fits(suf),
    ensures
        lit_u32(seq!['0', 'x'] + h + suf) == as_u32(digits_value(16, h)),
{
    lemma_prefixed(h, suf, 'x', 16);
}

/// `0o` and octal digits read as the number the digits write in base 8.
pub proof fn lemma_octal_literal(h: Seq<char>, suf: Seq<char>)
    requires
        h.len() > 0,
        is_digit_in(8, h[0]),
        forall|k: int| 0 <= k < h.len() ==> digit_or_sep(8, #[trigger] h[k]),
        suffix_fits(suf),
    ensures
        lit_u32(seq!['0', 'o'] + h + suf) == as_u32(digits_value(8, h)),
{
    lemma_prefixed(h, suf, 'o', 8);
}

/// `0b` and binary digits read as the number the digits write in base 2.
pub proof fn lemma_binary_literal(h: Seq<char>, suf: Seq<char>)
    requires
        h.len() > 0,
        is_digit_in(2, h[0]),
        forall|k: int| 0 <= k < h.len() ==> digit_or_sep(2, #[trigger] h[k]),
        suffix_fits(suf),
    ensures
        lit_u32(seq!['0', 'b'] + h + suf) == as_u32(digits_value(2, h)),
{
    lemma_prefixed(h, suf, 'b', 2);
}

/// Decimal digits read as the number they write in base 10.
pub proof fn lemma_decimal_literal(h: Seq<char>, suf: Seq<char>)
    requires
        h.len() > 0,
        is_dec(h[0]),
        h.len() >= 2 ==> is_dec(h[1]) || h[1] == '_',
        forall|k: int| 0 <= k < h.len() ==> digit_or_sep(10, #[trigger] h[k]),
        suffix_fits(suf),
        suf.len() > 0 ==> suf[0] != 'e' && suf[0] != 'E',
        h =~= seq!['0'] && suf.len() > 0 ==> suf[0] != 'x' && suf[0] != 'o',
    ensures
        lit_u32(h + suf) == as_u32(digits_value(10, h)),
{
    let s = h + suf;
    let k = h.len() as int;
    assert forall|j: int| 0 <= j < k implies digit_or_sep(10, #[trigger] s[j]) by {
        assert(s[j] == h[j]);
    }
    if k < s.len() {
        assert(s[k] == suf[0]);
    }
    assert(s[0] == h[0]);
    if h.len() >= 2 {
        assert(s[1] == h[1]);
    } else if s.len() >= 2 {
        assert(s[1] == suf[0]);
        if h[0] == '0' {
            assert(h =~= seq!['0']);
        }
    }
    lemma_digits(s, 0, k, 10, 0);
    assert(s.subrange(0, k) =~= h);
    assert(s.subrange(k, s.len() as int) =~= suf);
}

} // verus!
