//! Arbitrary-precision natural numbers for combination counts.
//!
//! Counts of dice outcomes grow as products of face counts, which overflow
//! any fixed-width integer for large dice sets. A `BigNat` stores a natural
//! number as little-endian limbs in base 10^9; every operation the engine
//! needs (addition, multiplication, decimal rendering) is verified against
//! the mathematical value of the limbs.

use vstd::prelude::*;

verus! {

/// The limb base. Base 10^9 keeps every partial product of two limbs,
/// plus a carry, below 2^63, so all limb arithmetic stays in `u64`.
pub const BASE: u64 = 1_000_000_000;

/// The value of a little-endian limb sequence in base 10^9.
pub open spec fn limbs_val(s: Seq<u64>) -> nat
    decreases s.len(),
{
    if s.len() == 0 {
        0
    } else {
        (s[0] + (BASE as nat) * limbs_val(s.drop_first())) as nat
    }
}

/// BASE to the power `k`.
pub open spec fn pow_base(k: nat) -> nat
    decreases k,
{
    if k == 0 {
        1
    } else {
        (BASE as nat) * pow_base((k - 1) as nat)
    }
}

/// Every limb is a base-10^9 digit.
pub open spec fn limbs_in_range(s: Seq<u64>) -> bool {
    forall|i: int| 0 <= i < s.len() ==> s[i] < BASE
}

/// No redundant high limb: zero is the empty sequence.
pub open spec fn limbs_canonical(s: Seq<u64>) -> bool {
    s.len() == 0 || s.last() != 0
}

pub struct BigNat {
    pub limbs: Vec<u64>,
}

impl View for BigNat {
    type V = nat;

    open spec fn view(&self) -> nat {
        limbs_val(self.limbs@)
    }
}

pub proof fn lemma_pow_base_pos(k: nat)
    ensures
        pow_base(k) >= 1,
    decreases k,
{
    if k > 0 {
        lemma_pow_base_pos((k - 1) as nat);
    }
}

pub proof fn lemma_pow_base_add(j: nat, k: nat)
    ensures
        pow_base(j + k) == pow_base(j) * pow_base(k),
    decreases j,
{
    if j == 0 {
        assert(pow_base(0 + k) == 1 * pow_base(k)) by {
            assert(pow_base(k) * 1 == pow_base(k)) by (nonlinear_arith);
        }
    } else {
        lemma_pow_base_add((j - 1) as nat, k);
        assert((BASE as nat) * ((pow_base((j - 1) as nat)) * pow_base(k)) == ((BASE as nat)
            * pow_base((j - 1) as nat)) * pow_base(k)) by (nonlinear_arith);
    }
}

/// Appending a limb adds its weighted value.
pub proof fn lemma_limbs_val_push(s: Seq<u64>, x: u64)
    ensures
        limbs_val(s.push(x)) == limbs_val(s) + x * pow_base(s.len() as nat),
    decreases s.len(),
{
    if s.len() == 0 {
        assert(s.push(x).drop_first() =~= Seq::<u64>::empty());
        assert(s.push(x).len() == 1);
        assert(s.push(x)[0] == x);
        assert(limbs_val(s.push(x).drop_first()) == 0);
        assert(limbs_val(s.push(x)) == x);
        assert(pow_base(s.len() as nat) == 1);
        assert(limbs_val(s) == 0);
        assert(x * 1 == x) by (nonlinear_arith);
    } else {
        assert(s.push(x).drop_first() =~= s.drop_first().push(x));
        lemma_limbs_val_push(s.drop_first(), x);
        let p = pow_base((s.len() - 1) as nat);
        assert((BASE as nat) * (limbs_val(s.drop_first()) + x * p) == (BASE as nat) * limbs_val(
            s.drop_first(),
        ) + x * ((BASE as nat) * p)) by (nonlinear_arith);
    }
}

/// One more limb of the prefix adds the limb's weighted value.
pub proof fn lemma_take_step(s: Seq<u64>, i: int)
    requires
        0 <= i < s.len(),
    ensures
        limbs_val(s.take(i + 1)) == limbs_val(s.take(i)) + s[i] * pow_base(i as nat),
{
    assert(s.take(i + 1) =~= s.take(i).push(s[i]));
    lemma_limbs_val_push(s.take(i), s[i]);
}

pub proof fn lemma_take_full(s: Seq<u64>)
    ensures
        limbs_val(s.take(s.len() as int)) == limbs_val(s),
{
    assert(s.take(s.len() as int) =~= s);
}

/// In-range limb sequences are bounded by the weight of their length.
pub proof fn lemma_limbs_val_bound(s: Seq<u64>)
    requires
        limbs_in_range(s),
    ensures
        limbs_val(s) < pow_base(s.len() as nat),
    decreases s.len(),
{
    if s.len() == 0 {
    } else {
        let rest = s.drop_first();
        assert(limbs_in_range(rest));
        lemma_limbs_val_bound(rest);
        let p = pow_base((s.len() - 1) as nat);
        lemma_pow_base_pos((s.len() - 1) as nat);
        assert(limbs_val(rest) + 1 <= p);
        assert((BASE as nat) * limbs_val(rest) + (BASE as nat) <= (BASE as nat) * p)
            by (nonlinear_arith)
            requires
                limbs_val(rest) + 1 <= p,
        ;
    }
}

/// A canonical nonzero number is at least the weight of its top limb.
pub proof fn lemma_canonical_lower_bound(s: Seq<u64>)
    requires
        limbs_canonical(s),
        s.len() >= 1,
    ensures
        limbs_val(s) >= pow_base((s.len() - 1) as nat),
    decreases s.len(),
{
    if s.len() == 1 {
        assert(s.last() == s[0]);
    } else {
        let rest = s.drop_first();
        assert(rest.last() == s.last());
        lemma_canonical_lower_bound(rest);
        let p = pow_base((s.len() - 2) as nat);
        assert((BASE as nat) * limbs_val(rest) >= (BASE as nat) * p) by (nonlinear_arith)
            requires
                limbs_val(rest) >= p,
        ;
    }
}

impl BigNat {
    /// Limbs are base-10^9 digits with no redundant high zero.
    pub open spec fn wf(&self) -> bool {
        limbs_in_range(self.limbs@) && limbs_canonical(self.limbs@)
    }

    /// The number zero: no limbs.
    pub fn zero() -> (r: BigNat)
        ensures
            r.wf(),
            r@ == 0,
    {
        BigNat { limbs: Vec::new() }
    }

    /// The number one.
    pub fn one() -> (r: BigNat)
        ensures
            r.wf(),
            r@ == 1,
    {
        let mut limbs: Vec<u64> = Vec::new();
        limbs.push(1);
        proof {
            lemma_limbs_val_push(Seq::<u64>::empty(), 1);
        }
        BigNat { limbs }
    }

    /// Builds the number with value `n`.
    pub fn from_u64(n: u64) -> (r: BigNat)
        ensures
            r.wf(),
            r@ == n,
    {
        let mut limbs: Vec<u64> = Vec::new();
        let mut rest: u64 = n;
        proof {
            assert(limbs@ =~= Seq::<u64>::empty());
            assert(limbs_val(limbs@) == 0);
            assert(pow_base(0) == 1);
            assert(rest * 1 == rest) by (nonlinear_arith);
        }
        while rest > 0
            invariant
                limbs_val(limbs@) + rest * pow_base(limbs@.len() as nat) == n,
                limbs_in_range(limbs@),
                rest == 0 ==> limbs_canonical(limbs@),
            decreases rest,
        {
            let d: u64 = rest % BASE;
            let q: u64 = rest / BASE;
            proof {
                lemma_limbs_val_push(limbs@, d);
                let p = pow_base(limbs@.len() as nat);
                assert(rest == d + (BASE as nat) * q);
                assert((d + (BASE as nat) * q) * p == d * p + q * ((BASE as nat) * p))
                    by (nonlinear_arith);
                if q == 0 {
                    assert(d == rest);
                }
            }
            limbs.push(d);
            rest = q;
        }
        proof {
            lemma_pow_base_pos(limbs@.len() as nat);
        }
        BigNat { limbs }
    }

    /// The value, exact whenever it is small enough; always `Some` below 10^18.
    pub fn as_u64(&self) -> (r: Option<u64>)
        requires
            self.wf(),
        ensures
            match r {
                Some(v) => v == self@,
                None => self@ >= 1_000_000_000_000_000_000,
            },
            self@ < 1_000_000_000_000_000_000 ==> r is Some,
    {
        if self.limbs.len() == 0 {
            Some(0)
        } else if self.limbs.len() == 1 {
            proof {
                assert(self.limbs@.drop_first() =~= Seq::<u64>::empty());
                assert(limbs_val(self.limbs@.drop_first()) == 0);
            }
            Some(self.limbs[0])
        } else if self.limbs.len() == 2 {
            proof {
                let s = self.limbs@;
                let r1 = s.drop_first();
                assert(r1.drop_first() =~= Seq::<u64>::empty());
                assert(limbs_val(r1.drop_first()) == 0);
                assert(r1[0] == s[1]);
                assert(limbs_val(r1) == s[1]);
                assert(self@ == s[0] + (BASE as nat) * (s[1] as nat));
                assert((BASE as nat) * (s[1] as nat) < (BASE as nat) * (BASE as nat))
                    by (nonlinear_arith)
                    requires
                        (s[1] as nat) < (BASE as nat),
                ;
            }
            Some(self.limbs[0] + BASE * self.limbs[1])
        } else {
            proof {
                let s = self.limbs@;
                lemma_canonical_lower_bound(s);
                assert(pow_base(0) == 1);
                assert(pow_base(1) == 1_000_000_000);
                assert(pow_base(2) == 1_000_000_000_000_000_000);
                assert(pow_base(2) <= pow_base((s.len() - 1) as nat)) by {
                    lemma_pow_base_add(2, (s.len() - 3) as nat);
                    lemma_pow_base_pos((s.len() - 3) as nat);
                    assert(pow_base(2) * 1 <= pow_base(2) * pow_base((s.len() - 3) as nat))
                        by (nonlinear_arith)
                        requires
                            pow_base((s.len() - 3) as nat) >= 1,
                    ;
                }
            }
            None
        }
    }

    /// Sum of two numbers, by limb-wise addition with carry.
    pub fn add(&self, other: &BigNat) -> (r: BigNat)
        requires
            self.wf(),
            other.wf(),
        ensures
            r.wf(),
            r@ == self@ + other@,
    {
        let a = &self.limbs;
        let b = &other.limbs;
        let n: usize = if a.len() >= b.len() {
            a.len()
        } else {
            b.len()
        };
        let mut out: Vec<u64> = Vec::new();
        let mut carry: u64 = 0;
        let mut i: usize = 0;
        proof {
            lemma_take_full(a@);
            lemma_take_full(b@);
        }
        while i < n
            invariant
                i <= n,
                n == if a@.len() >= b@.len() {
                    a@.len()
                } else {
                    b@.len()
                },
                limbs_in_range(a@),
                limbs_in_range(b@),
                out@.len() == i,
                carry <= 1,
                limbs_in_range(out@),
                limbs_val(out@) + carry * pow_base(i as nat) == limbs_val(
                    a@.take(if i <= a@.len() {
                        i as int
                    } else {
                        a@.len() as int
                    }),
                ) + limbs_val(
                    b@.take(if i <= b@.len() {
                        i as int
                    } else {
                        b@.len() as int
                    }),
                ),
            decreases n - i,
        {
            let av: u64 = if i < a.len() {
                a[i]
            } else {
                0
            };
            let bv: u64 = if i < b.len() {
                b[i]
            } else {
                0
            };
            let s: u64 = av + bv + carry;
            proof {
                let p = pow_base(i as nat);
                lemma_limbs_val_push(out@, s % BASE);
                assert(s == (s % BASE) + (BASE as nat) * (s / BASE));
                assert(((s % BASE) + (BASE as nat) * (s / BASE)) * p == (s % BASE) * p + (s / BASE)
                    * ((BASE as nat) * p)) by (nonlinear_arith);
                assert((av + bv + carry) * p == av * p + bv * p + carry * p) by (nonlinear_arith);
                if i < a@.len() {
                    lemma_take_step(a@, i as int);
                } else {
                    assert(a@.take(a@.len() as int) =~= a@.take(a@.len() as int));
                }
                if i < b@.len() {
                    lemma_take_step(b@, i as int);
                }
            }
            out.push(s % BASE);
            carry = s / BASE;
            i += 1;
        }
        proof {
            lemma_take_full(a@);
            lemma_take_full(b@);
            assert(limbs_val(out@) + carry * pow_base(n as nat) == self@ + other@);
        }
        if carry > 0 {
            proof {
                lemma_limbs_val_push(out@, carry);
                assert(limbs_val(out@.push(carry)) == self@ + other@);
            }
            out.push(carry);
        } else {
            proof {
                // without a final carry, the top produced limb cannot be zero:
                // the longer canonical operand already reaches that weight
                assert(carry * pow_base(n as nat) == 0) by (nonlinear_arith)
                    requires
                        carry == 0,
                ;
                assert(limbs_val(out@) == self@ + other@);
                if n > 0 && out@.last() == 0 {
                    let head = out@.take((n - 1) as int);
                    assert(out@[n - 1] == 0);
                    assert(out@ =~= head.push(0));
                    lemma_limbs_val_push(head, 0);
                    assert(limbs_val(out@) == limbs_val(head));
                    assert(limbs_in_range(head)) by {
                        assert(forall|k: int| 0 <= k < head.len() ==> head[k] == out@[k]);
                    }
                    lemma_limbs_val_bound(head);
                    assert(limbs_val(out@) < pow_base((n - 1) as nat));
                    if a@.len() == n {
                        lemma_canonical_lower_bound(a@);
                        assert(limbs_val(a@) >= pow_base((n - 1) as nat));
                    } else {
                        assert(b@.len() == n);
                        lemma_canonical_lower_bound(b@);
                        assert(limbs_val(b@) >= pow_base((n - 1) as nat));
                    }
                    assert(limbs_val(out@) == self@ + other@);
                    assert(false);
                }
            }
        }
        BigNat { limbs: out }
    }
    /// Product with a single base-10^9 digit.
    fn mul_small(&self, d: u64) -> (r: BigNat)
        requires
            self.wf(),
            d < BASE,
        ensures
            r.wf(),
            r@ == self@ * d,
    {
        if d == 0 {
            proof {
                assert(self@ * 0 == 0) by (nonlinear_arith);
            }
            return BigNat::zero();
        }
        if self.limbs.len() == 0 {
            proof {
                assert(self@ * d == 0) by (nonlinear_arith)
                    requires
                        self@ == 0,
                ;
            }
            return BigNat::zero();
        }
        let a = &self.limbs;
        let n: usize = a.len();
        let mut out: Vec<u64> = Vec::new();
        let mut carry: u64 = 0;
        let mut i: usize = 0;
        proof {
            assert(a@.take(0) =~= Seq::<u64>::empty());
            assert(limbs_val(a@.take(0)) * d == 0) by (nonlinear_arith)
                requires
                    limbs_val(a@.take(0)) == 0,
            ;
        }
        while i < n
            invariant
                i <= n,
                n == a@.len(),
                limbs_in_range(a@),
                d < BASE,
                1 <= d,
                out@.len() == i,
                carry < BASE,
                limbs_in_range(out@),
                limbs_val(out@) + carry * pow_base(i as nat) == limbs_val(a@.take(i as int)) * d,
            decreases n - i,
        {
            proof {
                assert(a@[i as int] * d <= (BASE - 1) * (BASE - 1)) by (nonlinear_arith)
                    requires
                        a@[i as int] < BASE,
                        d < BASE,
                ;
            }
            let p: u64 = a[i] * d + carry;
            proof {
                let pw = pow_base(i as nat);
                lemma_limbs_val_push(out@, p % BASE);
                lemma_take_step(a@, i as int);
                assert(p == (p % BASE) + (BASE as nat) * (p / BASE));
                assert(((p % BASE) + (BASE as nat) * (p / BASE)) * pw == (p % BASE) * pw + (p
                    / BASE) * ((BASE as nat) * pw)) by (nonlinear_arith);
                assert((a@[i as int] * d + carry) * pw == (a@[i as int] * d) * pw + carry * pw)
                    by (nonlinear_arith);
                assert((limbs_val(a@.take(i as int)) + a@[i as int] * pow_base(i as nat)) * d
                    == limbs_val(a@.take(i as int)) * d + (a@[i as int] * d) * pow_base(i as nat))
                    by (nonlinear_arith);
            }
            out.push(p % BASE);
            carry = p / BASE;
            i += 1;
        }
        proof {
            lemma_take_full(a@);
        }
        if carry > 0 {
            proof {
                lemma_limbs_val_push(out@, carry);
            }
            out.push(carry);
        } else {
            proof {
                assert(carry * pow_base(n as nat) == 0) by (nonlinear_arith)
                    requires
                        carry == 0,
                ;
                if out@.last() == 0 {
                    let head = out@.take((n - 1) as int);
                    assert(out@ =~= head.push(0));
                    lemma_limbs_val_push(head, 0);
                    assert(limbs_in_range(head)) by {
                        assert(forall|k: int| 0 <= k < head.len() ==> head[k] == out@[k]);
                    }
                    lemma_limbs_val_bound(head);
                    lemma_canonical_lower_bound(a@);
                    assert(limbs_val(a@) * d >= pow_base((n - 1) as nat) * 1) by (nonlinear_arith)
                        requires
                            limbs_val(a@) >= pow_base((n - 1) as nat),
                            d >= 1,
                    ;
                    assert(false);
                }
            }
        }
        BigNat { limbs: out }
    }

    /// The same number scaled by BASE^k: `k` zero limbs are prepended.
    fn shifted(&self, k: usize) -> (r: BigNat)
        requires
            self.wf(),
        ensures
            r.wf(),
            r@ == self@ * pow_base(k as nat),
    {
        if self.limbs.len() == 0 {
            proof {
                assert(0 * pow_base(k as nat) == 0) by (nonlinear_arith);
            }
            return BigNat::zero();
        }
        let a = &self.limbs;
        let n: usize = a.len();
        let mut out: Vec<u64> = Vec::new();
        let mut i: usize = 0;
        while i < k
            invariant
                i <= k,
                out@.len() == i,
                limbs_in_range(out@),
                limbs_val(out@) == 0,
            decreases k - i,
        {
            proof {
                lemma_limbs_val_push(out@, 0);
                assert(0 * pow_base(out@.len() as nat) == 0) by (nonlinear_arith);
            }
            out.push(0);
            i += 1;
        }
        let mut j: usize = 0;
        proof {
            assert(a@.take(0) =~= Seq::<u64>::empty());
            assert(0 * pow_base(k as nat) == 0) by (nonlinear_arith);
        }
        while j < n
            invariant
                j <= n,
                n == a@.len(),
                n >= 1,
                limbs_in_range(a@),
                limbs_canonical(a@),
                out@.len() == k + j,
                limbs_in_range(out@),
                limbs_val(out@) == limbs_val(a@.take(j as int)) * pow_base(k as nat),
                j >= 1 ==> out@.last() == a@[j - 1],
            decreases n - j,
        {
            proof {
                lemma_limbs_val_push(out@, a@[j as int]);
                lemma_take_step(a@, j as int);
                lemma_pow_base_add(j as nat, k as nat);
                let pk = pow_base(k as nat);
                let pj = pow_base(j as nat);
                assert(a@[j as int] * (pj * pk) == (a@[j as int] * pj) * pk) by (nonlinear_arith);
                assert((limbs_val(a@.take(j as int)) + a@[j as int] * pj) * pk == limbs_val(
                    a@.take(j as int),
                ) * pk + (a@[j as int] * pj) * pk) by (nonlinear_arith);
            }
            out.push(a[j]);
            j += 1;
        }
        proof {
            lemma_take_full(a@);
            assert(a@[n - 1] == a@.last());
        }
        BigNat { limbs: out }
    }

    /// An independent copy with the same limbs.
    pub fn duplicate(&self) -> (r: BigNat)
        ensures
            r.limbs@ == self.limbs@,
            r@ == self@,
            self.wf() ==> r.wf(),
    {
        let mut limbs: Vec<u64> = Vec::new();
        let mut i: usize = 0;
        while i < self.limbs.len()
            invariant
                i <= self.limbs@.len(),
                limbs@ =~= self.limbs@.take(i as int),
            decreases self.limbs@.len() - i,
        {
            limbs.push(self.limbs[i]);
            proof {
                assert(limbs@ =~= self.limbs@.take(i + 1));
            }
            i += 1;
        }
        proof {
            assert(limbs@ =~= self.limbs@);
        }
        BigNat { limbs }
    }

    /// Product of two numbers, by schoolbook multiplication.
    pub fn mul(&self, other: &BigNat) -> (r: BigNat)
        requires
            self.wf(),
            other.wf(),
        ensures
            r.wf(),
            r@ == self@ * other@,
    {
        let b = &other.limbs;
        let mut acc = BigNat::zero();
        let mut i: usize = 0;
        proof {
            assert(b@.take(0) =~= Seq::<u64>::empty());
            assert(self@ * limbs_val(b@.take(0)) == 0) by (nonlinear_arith)
                requires
                    limbs_val(b@.take(0)) == 0,
            ;
        }
        while i < b.len()
            invariant
                i <= b@.len(),
                self.wf(),
                other.wf(),
                b@ == other.limbs@,
                acc.wf(),
                acc@ == self@ * limbs_val(b@.take(i as int)),
            decreases b@.len() - i,
        {
            let part = self.mul_small(b[i]);
            let shifted = part.shifted(i);
            proof {
                lemma_take_step(b@, i as int);
                let pw = pow_base(i as nat);
                assert((self@ * b@[i as int]) * pw == self@ * (b@[i as int] * pw))
                    by (nonlinear_arith);
                assert(self@ * (limbs_val(b@.take(i as int)) + b@[i as int] * pw) == self@
                    * limbs_val(b@.take(i as int)) + self@ * (b@[i as int] * pw))
                    by (nonlinear_arith);
            }
            acc = acc.add(&shifted);
            i += 1;
        }
        proof {
            lemma_take_full(b@);
        }
        acc
    }
}

} // verus!
