//! Decimal text: rendering numbers, including arbitrary-precision counts.
//!
//! The renderings of dice, multisets, outcomes and distributions are all
//! built from decimal digits; this module defines what those digit
//! sequences are and produces them.

use vstd::prelude::*;
use vstd::string::StrSliceExecFns;
use vstd::string::StringExecFns;

use crate::bignat::{lemma_canonical_lower_bound, lemma_pow_base_pos, limbs_val, BigNat, BASE};

verus! {

/// The character of one decimal digit.
pub open spec fn digit_char(d: nat) -> char {
    if d == 0 {
        '0'
    } else if d == 1 {
        '1'
    } else if d == 2 {
        '2'
    } else if d == 3 {
        '3'
    } else if d == 4 {
        '4'
    } else if d == 5 {
        '5'
    } else if d == 6 {
        '6'
    } else if d == 7 {
        '7'
    } else if d == 8 {
        '8'
    } else {
        '9'
    }
}

/// The decimal digits of `n`, most significant first, no leading zeros.
pub open spec fn dec_digits(n: nat) -> Seq<char>
    decreases n,
{
    if n < 10 {
        seq![digit_char(n)]
    } else {
        dec_digits(n / 10).push(digit_char(n % 10))
    }
}

/// Exactly `k` decimal digits of `n`, zero-padded on the left.
pub open spec fn dec_digits_padded(n: nat, k: nat) -> Seq<char>
    decreases k,
{
    if k == 0 {
        Seq::empty()
    } else {
        dec_digits_padded(n / 10, (k - 1) as nat).push(digit_char(n % 10))
    }
}

/// Powers of ten.
pub open spec fn pow10(k: nat) -> nat
    decreases k,
{
    if k == 0 {
        1
    } else {
        10 * pow10((k - 1) as nat)
    }
}

/// Appends the digit character of `d`.
fn push_digit(s: &mut String, d: u64)
    requires
        d < 10,
    ensures
        final(s)@ == old(s)@.push(digit_char(d as nat)),
{
    let digits = "0123456789";
    proof {
        reveal_strlit("0123456789");
    }
    let ds = digits.substring_char(d as usize, d as usize + 1);
    proof {
        assert(ds@ =~= seq![digit_char(d as nat)]);
        assert(old(s)@ + seq![digit_char(d as nat)] =~= old(s)@.push(digit_char(d as nat)));
    }
    s.append(ds);
}

/// Renders `n` in decimal.
pub fn u64_to_string(n: u64) -> (s: String)
    ensures
        s@ == dec_digits(n as nat),
    decreases n,
{
    if n < 10 {
        let mut s = String::new();
        push_digit(&mut s, n);
        proof {
            assert(Seq::<char>::empty().push(digit_char(n as nat)) =~= seq![
                digit_char(n as nat),
            ]);
        }
        s
    } else {
        let mut s = u64_to_string(n / 10);
        push_digit(&mut s, n % 10);
        s
    }
}

/// Appends exactly `k` zero-padded decimal digits of `n`.
fn push_digits_padded(s: &mut String, n: u64, k: u64)
    ensures
        final(s)@ == old(s)@ + dec_digits_padded(n as nat, k as nat),
    decreases k,
{
    if k == 0 {
        proof {
            assert(old(s)@ + Seq::<char>::empty() =~= old(s)@);
        }
    } else {
        push_digits_padded(s, n / 10, k - 1);
        push_digit(s, n % 10);
        proof {
            assert((old(s)@ + dec_digits_padded((n / 10) as nat, (k - 1) as nat)).push(
                digit_char((n % 10) as nat),
            ) =~= old(s)@ + dec_digits_padded(n as nat, k as nat));
        }
    }
}

/// Splitting a number at `k` digits splits its rendering.
proof fn lemma_dec_split(q: nat, r: nat, k: nat)
    requires
        q >= 1,
        r < pow10(k),
    ensures
        dec_digits(q * pow10(k) + r) == dec_digits(q) + dec_digits_padded(r, k),
    decreases k,
{
    if k == 0 {
        assert(q * 1 == q) by (nonlinear_arith);
        assert(dec_digits(q) + dec_digits_padded(r, 0) =~= dec_digits(q));
    } else {
        let pk = pow10((k - 1) as nat);
        let n = q * pow10(k) + r;
        let m = q * pk + r / 10;
        assert(n == 10 * m + (r % 10)) by (nonlinear_arith)
            requires
                pow10(k) == 10 * pk,
                r == 10 * (r / 10) + r % 10,
                n == q * pow10(k) + r,
                m == q * pk + r / 10,
        ;
        assert(n / 10 == m && n % 10 == r % 10) by (nonlinear_arith)
            requires
                n == 10 * m + (r % 10),
                0 <= r % 10 < 10,
                m >= 0,
        ;
        assert(r / 10 < pk) by (nonlinear_arith)
            requires
                r < 10 * pk,
        ;
        assert(q * pk >= 1 * 1) by (nonlinear_arith)
            requires
                q >= 1,
                pk >= 1,
        ;
        assert(pk >= 1) by {
            lemma_pow10_pos((k - 1) as nat);
        }
        lemma_dec_split(q, r / 10, (k - 1) as nat);
        assert(n >= 10);
        assert(dec_digits(n) == dec_digits(m).push(digit_char((r % 10) as nat)));
        assert((dec_digits(q) + dec_digits_padded((r / 10) as nat, (k - 1) as nat)).push(
            digit_char((r % 10) as nat),
        ) =~= dec_digits(q) + dec_digits_padded(r, k));
    }
}

proof fn lemma_pow10_pos(k: nat)
    ensures
        pow10(k) >= 1,
    decreases k,
{
    if k > 0 {
        lemma_pow10_pos((k - 1) as nat);
    }
}

/// Nine decimal digits cover one limb.
proof fn lemma_pow10_nine()
    ensures
        pow10(9) == BASE,
{
    assert(pow10(0) == 1);
    assert(pow10(1) == 10);
    assert(pow10(2) == 100);
    assert(pow10(3) == 1000);
    assert(pow10(4) == 10000);
    assert(pow10(5) == 100000);
    assert(pow10(6) == 1000000);
    assert(pow10(7) == 10000000);
    assert(pow10(8) == 100000000);
    assert(pow10(9) == 1000000000);
}

/// Whether `c` is a decimal digit.
pub open spec fn is_dec_digit(c: char) -> bool {
    48 <= c as int <= 57
}

/// The value of a digit character.
pub open spec fn digit_val(c: char) -> nat {
    (c as int - 48) as nat
}

/// Every character is a decimal digit.
pub open spec fn all_digits(s: Seq<char>) -> bool {
    forall|i: int| 0 <= i < s.len() ==> #[trigger] is_dec_digit(s[i])
}

/// The value of a digit string, most significant first.
pub open spec fn digits_val(s: Seq<char>) -> nat
    decreases s.len(),
{
    if s.len() == 0 {
        0
    } else {
        digits_val(s.drop_last()) * 10 + digit_val(s.last())
    }
}

/// The digits after an optional leading plus sign.
pub open spec fn strip_plus(s: Seq<char>) -> Seq<char> {
    if s.len() >= 1 && s[0] == '+' {
        s.drop_first()
    } else {
        s
    }
}

/// What `str::parse` accepts for an unsigned integer, the range check
/// aside: an optional plus sign, then at least one digit.
pub open spec fn uint_str_valid(s: Seq<char>) -> bool {
    strip_plus(s).len() >= 1 && all_digits(strip_plus(s))
}

/// The value of such a string.
pub open spec fn uint_str_val(s: Seq<char>) -> nat {
    digits_val(strip_plus(s))
}

/// A digit string is worth at least any of its prefixes.
proof fn lemma_digits_val_prefix(s: Seq<char>, m: int)
    requires
        0 <= m <= s.len(),
    ensures
        digits_val(s) >= digits_val(s.subrange(0, m)),
    decreases s.len() - m,
{
    if m == s.len() {
        assert(s.subrange(0, m) =~= s);
    } else {
        lemma_digits_val_prefix(s, m + 1);
        let longer = s.subrange(0, m + 1);
        assert(longer.drop_last() =~= s.subrange(0, m));
        assert(digits_val(longer) == digits_val(s.subrange(0, m)) * 10 + digit_val(longer.last()));
        assert(digits_val(s.subrange(0, m)) * 10 >= digits_val(s.subrange(0, m)) * 1)
            by (nonlinear_arith);
    }
}

/// Parses a decimal `u64`, accepting exactly what `str::parse` accepts:
/// an optional plus sign, then digits whose value fits.
pub fn parse_u64(s: &str) -> (r: Option<u64>)
    ensures
        r is Some <==> uint_str_valid(s@) && uint_str_val(s@) <= u64::MAX,
        r matches Some(v) ==> v == uint_str_val(s@),
{
    let len = s.unicode_len();
    let mut i: usize = 0;
    if len >= 1 && s.get_char(0) == '+' {
        i = 1;
    }
    let start: usize = i;
    let ghost t = strip_plus(s@);
    proof {
        if start == 1 {
            assert(t =~= s@.subrange(1, len as int));
        } else {
            assert(t =~= s@.subrange(0, len as int));
        }
    }
    if i == len {
        return None;
    }
    let mut acc: u64 = 0;
    while i < len
        invariant
            start <= i <= len,
            len == s@.len(),
            start == 0 || start == 1,
            t == strip_plus(s@),
            t =~= s@.subrange(start as int, len as int),
            forall|k: int| 0 <= k < i - start ==> #[trigger] is_dec_digit(t[k]),
            acc == digits_val(t.subrange(0, i - start)),
        decreases len - i,
    {
        let c = s.get_char(i);
        let cu = c as u32;
        if cu < 48 || cu > 57 {
            proof {
                assert(t[i - start] == s@[i as int]);
                assert(!is_dec_digit(t[i - start]));
            }
            return None;
        }
        let d: u64 = (cu - 48) as u64;
        let ghost pre = t.subrange(0, i - start);
        let ghost ext = t.subrange(0, i + 1 - start);
        proof {
            assert(ext.drop_last() =~= pre);
            assert(ext.last() == t[i - start]);
            assert(t[i - start] == s@[i as int]);
            assert(digit_val(s@[i as int]) == d);
            assert(digits_val(ext) == acc * 10 + d);
        }
        if acc > (u64::MAX - d) / 10 {
            proof {
                let cap = (u64::MAX - d) as int;
                assert(acc * 10 + d > u64::MAX) by (nonlinear_arith)
                    requires
                        acc >= cap / 10 + 1,
                        cap == 10 * (cap / 10) + cap % 10,
                        0 <= cap % 10 < 10,
                        d + cap == u64::MAX,
                ;
                lemma_digits_val_prefix(t, i + 1 - start);
            }
            return None;
        }
        proof {
            assert(acc * 10 + d <= u64::MAX) by (nonlinear_arith)
                requires
                    acc <= (u64::MAX - d) as int / 10,
                    (u64::MAX - d) as int == 10 * ((u64::MAX - d) as int / 10) + (u64::MAX
                        - d) as int % 10,
                    0 <= (u64::MAX - d) as int % 10,
            ;
        }
        acc = acc * 10 + d;
        i += 1;
    }
    proof {
        assert(t.subrange(0, (len - start) as int) =~= t);
    }
    Some(acc)
}

/// Parses a decimal `u8`.
pub fn parse_u8(s: &str) -> (r: Option<u8>)
    ensures
        r is Some <==> uint_str_valid(s@) && uint_str_val(s@) <= u8::MAX,
        r matches Some(v) ==> v == uint_str_val(s@),
{
    match parse_u64(s) {
        Some(v) => if v <= 255 {
            Some(v as u8)
        } else {
            None
        },
        None => None,
    }
}

/// Parses a decimal `usize`.
pub fn parse_usize(s: &str) -> (r: Option<usize>)
    ensures
        r is Some <==> uint_str_valid(s@) && uint_str_val(s@) <= usize::MAX,
        r matches Some(v) ==> v == uint_str_val(s@),
{
    match parse_u64(s) {
        Some(v) => if v <= usize::MAX as u64 {
            Some(v as usize)
        } else {
            None
        },
        None => None,
    }
}

impl BigNat {
    /// Renders the number in decimal: the top limb plain, every lower
    /// limb as nine zero-padded digits.
    pub fn to_decimal(&self) -> (s: String)
        requires
            self.wf(),
        ensures
            s@ == dec_digits(self@),
    {
        let t = self.limbs.len();
        if t == 0 {
            let mut s = String::new();
            push_digit(&mut s, 0);
            proof {
                assert(Seq::<char>::empty().push(digit_char(0)) =~= seq![digit_char(0)]);
                assert(dec_digits(0) == seq![digit_char(0)]);
            }
            return s;
        }
        let mut s = u64_to_string(self.limbs[t - 1]);
        let ghost limbs = self.limbs@;
        proof {
            assert(limbs.subrange(t - 1, t as int).drop_first() =~= Seq::<u64>::empty());
            assert(limbs_val(limbs.subrange(t - 1, t as int).drop_first()) == 0);
            assert(limbs_val(limbs.subrange(t - 1, t as int)) == limbs[t - 1]);
        }
        let mut i: usize = t - 1;
        while i > 0
            invariant
                i < t,
                t == limbs.len(),
                limbs == self.limbs@,
                self.wf(),
                s@ == dec_digits(limbs_val(limbs.subrange(i as int, t as int))),
            decreases i,
        {
            let ghost upper = limbs.subrange(i as int, t as int);
            let ghost whole = limbs.subrange(i - 1, t as int);
            proof {
                assert(whole.drop_first() =~= upper);
                assert(limbs_val(whole) == whole[0] + (BASE as nat) * limbs_val(upper));
                assert(upper.last() == limbs.last());
                lemma_canonical_lower_bound(upper);
                lemma_pow_base_pos((upper.len() - 1) as nat);
                lemma_pow10_nine();
                assert(limbs_val(upper) * (BASE as nat) == (BASE as nat) * limbs_val(upper))
                    by (nonlinear_arith);
                lemma_dec_split(limbs_val(upper), limbs[i - 1] as nat, 9);
            }
            push_digits_padded(&mut s, self.limbs[i - 1], 9);
            i -= 1;
        }
        proof {
            assert(limbs.subrange(0, t as int) =~= limbs);
        }
        s
    }
}

} // verus!
