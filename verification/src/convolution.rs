//! The discrete convolution of count sequences, and its algebra.
//!
//! A distribution over sums is modeled as a `Seq<nat>` of counts, indexed
//! from the smallest attainable sum. Combining two independent distributions
//! is convolution; this module defines it and proves the facts the engine
//! and its callers rely on: commutativity, associativity, the unit, the
//! preservation of symmetry, and conservation of the total count.

use vstd::prelude::*;

verus! {

/// f(0) + f(1) + ... + f(n-1); zero when n <= 0.
pub open spec fn sum_upto(f: spec_fn(int) -> nat, n: int) -> nat
    decreases n,
{
    if n <= 0 {
        0
    } else {
        sum_upto(f, n - 1) + f(n - 1)
    }
}

/// Sums of pointwise-equal term functions are equal.
pub proof fn lemma_sum_ext(f: spec_fn(int) -> nat, g: spec_fn(int) -> nat, n: int)
    requires
        forall|j: int| 0 <= j < n ==> #[trigger] f(j) == g(j),
    ensures
        sum_upto(f, n) == sum_upto(g, n),
    decreases n,
{
    if n > 0 {
        lemma_sum_ext(f, g, n - 1);
    }
}

/// A sum of zeros is zero.
pub proof fn lemma_sum_zero(f: spec_fn(int) -> nat, n: int)
    requires
        forall|j: int| 0 <= j < n ==> #[trigger] f(j) == 0,
    ensures
        sum_upto(f, n) == 0,
    decreases n,
{
    if n > 0 {
        lemma_sum_zero(f, n - 1);
    }
}

/// Terms beyond `n` that are zero do not change the sum.
pub proof fn lemma_sum_extend(f: spec_fn(int) -> nat, n: int, m: int)
    requires
        n <= m,
        forall|j: int| n <= j < m ==> #[trigger] f(j) == 0,
    ensures
        sum_upto(f, m) == sum_upto(f, n),
    decreases m - n,
{
    if n < m {
        lemma_sum_extend(f, n, m - 1);
    }
}

/// A sum whose only nonzero term is at `k` equals that term.
pub proof fn lemma_sum_single(f: spec_fn(int) -> nat, n: int, k: int)
    requires
        0 <= k < n,
        forall|j: int| 0 <= j < n && j != k ==> #[trigger] f(j) == 0,
    ensures
        sum_upto(f, n) == f(k),
    decreases n,
{
    if k == n - 1 {
        lemma_sum_zero(f, n - 1);
    } else {
        lemma_sum_single(f, n - 1, k);
    }
}

/// Pointwise addition of term functions adds the sums.
pub proof fn lemma_sum_add(f: spec_fn(int) -> nat, g: spec_fn(int) -> nat, h: spec_fn(int) -> nat, n: int)
    requires
        forall|j: int| 0 <= j < n ==> #[trigger] h(j) == f(j) + g(j),
    ensures
        sum_upto(h, n) == sum_upto(f, n) + sum_upto(g, n),
    decreases n,
{
    if n > 0 {
        lemma_sum_add(f, g, h, n - 1);
    }
}

/// Scaling every term scales the sum.
pub proof fn lemma_sum_scale(f: spec_fn(int) -> nat, g: spec_fn(int) -> nat, n: int, c: nat)
    requires
        forall|j: int| 0 <= j < n ==> #[trigger] g(j) == f(j) * c,
    ensures
        sum_upto(g, n) == sum_upto(f, n) * c,
    decreases n,
{
    if n <= 0 {
        assert(0 * c == 0) by (nonlinear_arith);
    } else {
        lemma_sum_scale(f, g, n - 1, c);
        assert((sum_upto(f, n - 1) + f(n - 1)) * c == sum_upto(f, n - 1) * c + f(n - 1) * c)
            by (nonlinear_arith);
    }
}

/// The first term can be peeled off instead of the last.
pub proof fn lemma_sum_peel_first(f: spec_fn(int) -> nat, g: spec_fn(int) -> nat, n: int)
    requires
        n >= 1,
        forall|j: int| 0 <= j < n - 1 ==> #[trigger] g(j) == f(j + 1),
    ensures
        sum_upto(f, n) == f(0) + sum_upto(g, n - 1),
    decreases n,
{
    if n == 1 {
        assert(sum_upto(f, 1) == sum_upto(f, 0) + f(0));
    } else {
        lemma_sum_peel_first(f, g, n - 1);
        assert(g(n - 2) == f(n - 1));
        assert(sum_upto(g, n - 1) == sum_upto(g, n - 2) + g(n - 2));
        assert(sum_upto(f, n) == sum_upto(f, n - 1) + f(n - 1));
    }
}

/// Summing terms in reverse order gives the same sum.
pub proof fn lemma_sum_reverse(f: spec_fn(int) -> nat, g: spec_fn(int) -> nat, n: int)
    requires
        forall|j: int| 0 <= j < n ==> #[trigger] g(j) == f(n - 1 - j),
    ensures
        sum_upto(g, n) == sum_upto(f, n),
    decreases n,
{
    if n > 0 {
        let g1 = |j: int| g(j + 1);
        lemma_sum_peel_first(g, g1, n);
        assert(forall|j: int| 0 <= j < n - 1 ==> #[trigger] g1(j) == f((n - 1) - 1 - j));
        lemma_sum_reverse(f, g1, n - 1);
    }
}

/// Shifting the terms right by `k` (with zeros below) keeps the sum.
pub proof fn lemma_sum_shift(f: spec_fn(int) -> nat, g: spec_fn(int) -> nat, n: int, k: int)
    requires
        k >= 0,
        n >= 0,
        forall|j: int| #![trigger g(j)] g(j) == f(j - k),
        forall|j: int| j < 0 ==> #[trigger] f(j) == 0,
    ensures
        sum_upto(g, n + k) == sum_upto(f, n),
    decreases k,
{
    if k == 0 {
        lemma_sum_ext(f, g, n);
    } else {
        let g1 = |j: int| g(j + 1);
        if n + k >= 1 {
            lemma_sum_peel_first(g, g1, n + k);
        }
        assert(g(0) == 0);
        assert(forall|j: int| #![trigger g1(j)] g1(j) == f(j - (k - 1)));
        lemma_sum_shift(f, g1, n, k - 1);
    }
}

/// Finite double sums can be exchanged.
pub proof fn lemma_sum_fubini(
    h: spec_fn(int, int) -> nat,
    rows: spec_fn(int) -> nat,
    cols: spec_fn(int) -> nat,
    m: int,
    n: int,
)
    requires
        forall|i: int| 0 <= i < m ==> #[trigger] rows(i) == sum_upto(|j: int| h(i, j), n),
        forall|j: int| 0 <= j < n ==> #[trigger] cols(j) == sum_upto(|i: int| h(i, j), m),
    ensures
        sum_upto(rows, m) == sum_upto(cols, n),
    decreases m,
{
    if m <= 0 {
        assert forall|j: int| 0 <= j < n implies #[trigger] cols(j) == 0 by {
            assert(sum_upto(|i: int| h(i, j), m) == 0);
        }
        lemma_sum_zero(cols, n);
    } else {
        let cols1 = |j: int| sum_upto(|i: int| h(i, j), m - 1);
        lemma_sum_fubini(h, rows, cols1, m - 1, n);
        assert forall|j: int| 0 <= j < n implies #[trigger] cols(j) == cols1(j) + h(m - 1, j) by {
            assert(cols(j) == sum_upto(|i: int| h(i, j), m));
        }
        let lastrow = |j: int| h(m - 1, j);
        lemma_sum_add(cols1, lastrow, cols, n);
        assert(rows(m - 1) == sum_upto(lastrow, n)) by {
            lemma_sum_ext(|j: int| h(m - 1, j), lastrow, n);
        }
        assert(sum_upto(rows, m) == sum_upto(rows, m - 1) + rows(m - 1));
    }
}

/// The count at position `i`, zero outside the sequence.
pub open spec fn seq_at(s: Seq<nat>, i: int) -> nat {
    if 0 <= i < s.len() {
        s[i]
    } else {
        0
    }
}

/// One term of the convolution sum at output position `i`.
pub open spec fn conv_term(a: Seq<nat>, b: Seq<nat>, i: int, j: int) -> nat {
    seq_at(a, j) * seq_at(b, i - j)
}

/// The convolution value at output position `i`.
pub open spec fn conv_at(a: Seq<nat>, b: Seq<nat>, i: int) -> nat {
    sum_upto(|j: int| conv_term(a, b, i, j), i + 1)
}

/// The convolution of two nonempty count sequences.
pub open spec fn conv(a: Seq<nat>, b: Seq<nat>) -> Seq<nat>
    recommends
        a.len() >= 1,
        b.len() >= 1,
{
    Seq::new((a.len() + b.len() - 1) as nat, |i: int| conv_at(a, b, i))
}

/// Every count equals its mirror around the middle.
pub open spec fn symmetric(s: Seq<nat>) -> bool {
    forall|i: int| 0 <= i < s.len() ==> #[trigger] s[i] == s[s.len() - 1 - i]
}

/// The total of all counts in a sequence.
pub open spec fn seq_total(s: Seq<nat>) -> nat {
    sum_upto(|i: int| seq_at(s, i), s.len() as int)
}

/// The total of the first `j` counts.
pub open spec fn seq_total_upto(s: Seq<nat>, j: int) -> nat {
    sum_upto(|i: int| seq_at(s, i), j)
}

/// One more count of the partial total.
pub proof fn lemma_seq_total_step(s: Seq<nat>, j: int)
    requires
        j >= 0,
    ensures
        seq_total_upto(s, j + 1) == seq_total_upto(s, j) + seq_at(s, j),
{
    let f = |i: int| seq_at(s, i);
    assert(sum_upto(f, j + 1) == sum_upto(f, j) + f(j));
}

/// The partial total over the whole sequence is its total.
pub proof fn lemma_seq_total_full(s: Seq<nat>)
    ensures
        seq_total_upto(s, s.len() as int) == seq_total(s),
{
}

/// The convolution value is zero outside `[0, a.len() + b.len() - 1)`.
pub proof fn lemma_conv_at_zero(a: Seq<nat>, b: Seq<nat>, i: int)
    requires
        i < 0 || i >= a.len() + b.len() - 1,
    ensures
        conv_at(a, b, i) == 0,
{
    if i + 1 <= 0 {
    } else {
        let f = |j: int| conv_term(a, b, i, j);
        assert forall|j: int| 0 <= j < i + 1 implies #[trigger] f(j) == 0 by {
            if 0 <= j < a.len() && 0 <= i - j < b.len() {
                assert(false);
            } else {
                lemma_mul_zero(seq_at(a, j), seq_at(b, i - j));
            }
        }
        lemma_sum_zero(f, i + 1);
    }
}

/// A partial convolution sum: the first `j` terms at output position `i`.
pub open spec fn conv_partial(a: Seq<nat>, b: Seq<nat>, i: int, j: int) -> nat {
    sum_upto(|k: int| conv_term(a, b, i, k), j)
}

/// One more term of the partial convolution sum.
pub proof fn lemma_conv_partial_step(a: Seq<nat>, b: Seq<nat>, i: int, j: int)
    requires
        j >= 0,
    ensures
        conv_partial(a, b, i, j + 1) == conv_partial(a, b, i, j) + conv_term(a, b, i, j),
{
    let f = |k: int| conv_term(a, b, i, k);
    assert(sum_upto(f, j + 1) == sum_upto(f, j) + f(j));
}

/// Once `j` covers all of `a` (or all of `[0, i]`), the partial sum is the
/// convolution value.
pub proof fn lemma_conv_partial_full(a: Seq<nat>, b: Seq<nat>, i: int, j: int)
    requires
        0 <= i,
        j == i + 1 || a.len() <= j <= i + 1,
    ensures
        conv_partial(a, b, i, j) == conv_at(a, b, i),
{
    let f = |k: int| conv_term(a, b, i, k);
    if j < i + 1 {
        assert forall|k: int| j <= k < i + 1 implies #[trigger] f(k) == 0 by {
            assert(seq_at(a, k) == 0);
            lemma_mul_zero(seq_at(a, k), seq_at(b, i - k));
        }
        lemma_sum_extend(f, j, i + 1);
    }
}

/// A product with a zero factor is zero.
pub proof fn lemma_mul_zero(x: nat, y: nat)
    requires
        x == 0 || y == 0,
    ensures
        x * y == 0,
{
    assert(x * y == 0) by (nonlinear_arith)
        requires
            x == 0 || y == 0,
    ;
}

/// Extending the convolution sum beyond `i + 1` changes nothing.
proof fn lemma_conv_at_extended(a: Seq<nat>, b: Seq<nat>, i: int, m: int)
    requires
        i + 1 <= m,
        i >= 0,
    ensures
        conv_at(a, b, i) == sum_upto(|j: int| conv_term(a, b, i, j), m),
{
    let f = |j: int| conv_term(a, b, i, j);
    assert forall|j: int| i + 1 <= j < m implies #[trigger] f(j) == 0 by {
        assert(seq_at(b, i - j) == 0);
        lemma_mul_zero(seq_at(a, j), seq_at(b, i - j));
    }
    lemma_sum_extend(f, i + 1, m);
}

/// Convolution is commutative.
pub proof fn lemma_conv_comm(a: Seq<nat>, b: Seq<nat>)
    requires
        a.len() >= 1,
        b.len() >= 1,
    ensures
        conv(a, b) == conv(b, a),
{
    assert forall|i: int| 0 <= i < a.len() + b.len() - 1 implies conv_at(a, b, i) == conv_at(
        b,
        a,
        i,
    ) by {
        lemma_conv_at_comm(a, b, i);
    }
    assert(conv(a, b) =~= conv(b, a));
}

/// The convolution sum at one position, read in reverse order.
proof fn lemma_conv_at_comm(a: Seq<nat>, b: Seq<nat>, i: int)
    ensures
        conv_at(a, b, i) == conv_at(b, a, i),
{
    let f = |j: int| conv_term(a, b, i, j);
    let g = |j: int| conv_term(b, a, i, j);
    assert forall|j: int| 0 <= j < i + 1 implies #[trigger] g(j) == f(i - j) by {
        assert(seq_at(a, i - j) * seq_at(b, i - (i - j)) == seq_at(b, j) * seq_at(a, i - j))
            by (nonlinear_arith);
    }
    lemma_sum_reverse(f, g, i + 1);
}

/// The one-die distribution of a single certain outcome is the unit.
pub proof fn lemma_conv_unit(a: Seq<nat>)
    requires
        a.len() >= 1,
    ensures
        conv(a, seq![1nat]) == a,
{
    let u = seq![1nat];
    assert forall|i: int| 0 <= i < a.len() implies conv_at(a, u, i) == a[i] by {
        let f = |j: int| conv_term(a, u, i, j);
        assert forall|j: int| 0 <= j < i + 1 && j != i implies #[trigger] f(j) == 0 by {
            assert(seq_at(u, i - j) == 0);
            lemma_mul_zero(seq_at(a, j), seq_at(u, i - j));
        }
        lemma_sum_single(f, i + 1, i);
        assert(f(i) == seq_at(a, i) * 1);
        assert(seq_at(a, i) * 1 == seq_at(a, i)) by (nonlinear_arith);
    }
    assert(conv(a, u) =~= a);
}

/// Convolving symmetric distributions yields a symmetric distribution.
pub proof fn lemma_conv_symmetric(a: Seq<nat>, b: Seq<nat>)
    requires
        a.len() >= 1,
        b.len() >= 1,
        symmetric(a),
        symmetric(b),
    ensures
        symmetric(conv(a, b)),
{
    let al = a.len() as int;
    let bl = b.len() as int;
    let n = al + bl - 1;
    let kk = al + bl;
    assert forall|i: int| 0 <= i < n implies #[trigger] conv(a, b)[i] == conv(a, b)[n - 1 - i] by {
        let f = |j: int| conv_term(a, b, i, j);
        let g = |j: int| conv_term(a, b, n - 1 - i, j);
        let grev = |j: int| g(kk - 1 - j);
        // reversing the mirrored sum turns it into a shifted copy of the first
        assert forall|j: int| #![trigger grev(j)] grev(j) == f(j - bl) by {
            let jr = kk - 1 - j;
            if 0 <= jr < al && 0 <= (n - 1 - i) - jr < bl {
                assert(a[jr] == a[al - 1 - jr]);
                assert(b[(n - 1 - i) - jr] == b[bl - 1 - ((n - 1 - i) - jr)]);
                assert(g(jr) == seq_at(a, j - bl) * seq_at(b, i - (j - bl)));
            } else {
                lemma_mul_zero(seq_at(a, jr), seq_at(b, (n - 1 - i) - jr));
                if 0 <= j - bl < al && 0 <= i - (j - bl) < bl {
                    assert(a[j - bl] == a[al - 1 - (j - bl)]);
                    assert(b[i - (j - bl)] == b[bl - 1 - (i - (j - bl))]);
                    assert(false);
                } else {
                    lemma_mul_zero(seq_at(a, j - bl), seq_at(b, i - (j - bl)));
                }
            }
        }
        assert forall|j: int| j < 0 implies #[trigger] f(j) == 0 by {
            lemma_mul_zero(seq_at(a, j), seq_at(b, i - j));
        }
        lemma_sum_shift(f, grev, al, bl);
        lemma_sum_reverse(g, grev, kk);
        lemma_conv_at_extended(a, b, n - 1 - i, kk);
        assert(conv_at(a, b, n - 1 - i) == sum_upto(g, kk));
        assert(sum_upto(grev, al + bl) == sum_upto(f, al));
        assert(conv_at(a, b, i) == sum_upto(f, al)) by {
            if i + 1 <= al {
                let ff = |j: int| conv_term(a, b, i, j);
                assert forall|j: int| i + 1 <= j < al implies #[trigger] ff(j) == 0 by {
                    assert(seq_at(b, i - j) == 0);
                    lemma_mul_zero(seq_at(a, j), seq_at(b, i - j));
                }
                lemma_sum_extend(ff, i + 1, al);
            } else {
                lemma_conv_at_extended(a, b, i, i + 1);
                let ff = |j: int| conv_term(a, b, i, j);
                assert forall|j: int| al <= j < i + 1 implies #[trigger] ff(j) == 0 by {
                    assert(seq_at(a, j) == 0);
                    lemma_mul_zero(seq_at(a, j), seq_at(b, i - j));
                }
                lemma_sum_extend(ff, al, i + 1);
            }
        }
    }
}

/// Conservation: the total of a convolution is the product of the totals.
pub proof fn lemma_conv_total(a: Seq<nat>, b: Seq<nat>)
    requires
        a.len() >= 1,
        b.len() >= 1,
    ensures
        seq_total(conv(a, b)) == seq_total(a) * seq_total(b),
{
    let al = a.len() as int;
    let bl = b.len() as int;
    let n = al + bl - 1;
    let c = conv(a, b);
    let h = |i: int, j: int| conv_term(a, b, i, j);
    let rows = |i: int| seq_at(c, i);
    let cols = |j: int| sum_upto(|i: int| h(i, j), n);
    assert forall|i: int| 0 <= i < n implies #[trigger] rows(i) == sum_upto(|j: int| h(i, j), n)
        by {
        lemma_conv_at_extended(a, b, i, n);
        lemma_sum_ext(|j: int| conv_term(a, b, i, j), |j: int| h(i, j), n);
    }
    lemma_sum_fubini(h, rows, cols, n, n);
    // each column j contributes a[j] times the whole of b
    assert forall|j: int| 0 <= j < n implies #[trigger] cols(j) == seq_at(a, j) * seq_total(b) by {
        let colf = |i: int| h(i, j);
        if j < al {
            let bweighted = |m: int| (seq_at(a, j) * seq_at(b, m)) as nat;
            assert forall|i: int| #![trigger colf(i)] colf(i) == bweighted(i - j) by {
                assert(seq_at(a, j) * seq_at(b, i - j) == bweighted(i - j));
            }
            assert forall|m: int| m < 0 implies #[trigger] bweighted(m) == 0 by {
                lemma_mul_zero(seq_at(a, j), seq_at(b, m));
            }
            lemma_sum_shift(bweighted, colf, n - j, j);
            assert forall|m: int| bl <= m < n - j implies #[trigger] bweighted(m) == 0 by {
                lemma_mul_zero(seq_at(a, j), seq_at(b, m));
            }
            lemma_sum_extend(bweighted, bl, n - j);
            assert forall|m: int| 0 <= m < bl implies #[trigger] bweighted(m) == seq_at(b, m)
                * seq_at(a, j) by {
                assert(seq_at(a, j) * seq_at(b, m) == seq_at(b, m) * seq_at(a, j))
                    by (nonlinear_arith);
            }
            lemma_sum_scale(|m: int| seq_at(b, m), bweighted, bl, seq_at(a, j));
            assert(sum_upto(|m: int| seq_at(b, m), bl) == seq_total(b));
            assert(sum_upto(|m: int| seq_at(b, m), bl) * seq_at(a, j) == seq_at(a, j) * seq_total(
                b,
            )) by (nonlinear_arith)
                requires
                    sum_upto(|m: int| seq_at(b, m), bl) == seq_total(b),
            ;
        } else {
            assert forall|i: int| 0 <= i < n implies #[trigger] colf(i) == 0 by {
                assert(seq_at(a, j) == 0);
                lemma_mul_zero(seq_at(a, j), seq_at(b, i - j));
            }
            lemma_sum_zero(colf, n);
            lemma_mul_zero(seq_at(a, j), seq_total(b));
        }
    }
    let aweighted = |j: int| (seq_at(a, j) * seq_total(b)) as nat;
    lemma_sum_ext(cols, aweighted, n);
    assert forall|j: int| al <= j < n implies #[trigger] aweighted(j) == 0 by {
        lemma_mul_zero(seq_at(a, j), seq_total(b));
    }
    lemma_sum_extend(aweighted, al, n);
    lemma_sum_scale(|j: int| seq_at(a, j), aweighted, al, seq_total(b));
    assert(seq_total(c) == sum_upto(rows, n)) by {
        lemma_sum_ext(|i: int| seq_at(c, i), rows, n);
    }
}

/// Convolution is associative.
pub proof fn lemma_conv_assoc(a: Seq<nat>, b: Seq<nat>, c: Seq<nat>)
    requires
        a.len() >= 1,
        b.len() >= 1,
        c.len() >= 1,
    ensures
        conv(conv(a, b), c) == conv(a, conv(b, c)),
{
    let al = a.len() as int;
    let bl = b.len() as int;
    let cl = c.len() as int;
    let ab = conv(a, b);
    let bc = conv(b, c);
    let kk = al + bl + cl;
    let total = al + bl + cl - 2;
    assert forall|i: int| 0 <= i < total implies conv_at(ab, c, i) == conv_at(a, bc, i) by {
        let h = |j: int, k: int| (conv_term(a, b, j, k) * seq_at(c, i - j)) as nat;
        let rows = |j: int| conv_term(ab, c, i, j);
        let cols = |k: int| conv_term(a, bc, i, k);
        // each row of the left-hand sum expands to a sum over k
        assert forall|j: int| 0 <= j < kk implies #[trigger] rows(j) == sum_upto(
            |k: int| h(j, k),
            kk,
        ) by {
            let termf = |k: int| conv_term(a, b, j, k);
            if 0 <= j < ab.len() {
                assert(seq_at(ab, j) == conv_at(a, b, j));
                lemma_conv_at_extended(a, b, j, kk);
            } else {
                lemma_conv_at_zero(a, b, j);
                lemma_conv_at_extended(a, b, j, kk);
                assert(seq_at(ab, j) == 0);
            }
            assert(seq_at(ab, j) == sum_upto(termf, kk));
            assert forall|k: int| 0 <= k < kk implies #[trigger] h(j, k) == termf(k) * seq_at(
                c,
                i - j,
            ) by {}
            lemma_sum_scale(termf, |k: int| h(j, k), kk, seq_at(c, i - j));
            assert(sum_upto(termf, kk) * seq_at(c, i - j) == seq_at(ab, j) * seq_at(c, i - j));
        }
        // each column of that double sum is one term of the right-hand sum
        assert forall|k: int| 0 <= k < kk implies #[trigger] cols(k) == sum_upto(
            |j: int| h(j, k),
            kk,
        ) by {
            let f2 = |m: int| conv_term(b, c, i - k, m);
            let scaled = |m: int| (f2(m) * seq_at(a, k)) as nat;
            let colf = |j: int| h(j, k);
            assert forall|j: int| #![trigger colf(j)] colf(j) == scaled(j - k) by {
                let x = seq_at(a, k);
                let y = seq_at(b, j - k);
                let z = seq_at(c, i - j);
                assert(conv_term(a, b, j, k) == x * y);
                assert(i - k - (j - k) == i - j);
                assert(f2(j - k) == y * z);
                assert((x * y) * z == (y * z) * x) by (nonlinear_arith);
            }
            assert forall|m: int| m < 0 implies #[trigger] scaled(m) == 0 by {
                lemma_mul_zero(seq_at(b, m), seq_at(c, i - k - m));
                lemma_mul_zero(f2(m), seq_at(a, k));
            }
            lemma_sum_shift(scaled, colf, kk - k, k);
            lemma_sum_scale(f2, scaled, kk - k, seq_at(a, k));
            // the remaining sum is exactly the (i - k)-th convolution of b and c
            assert(sum_upto(f2, kk - k) == seq_at(bc, i - k)) by {
                if i - k < 0 {
                    assert forall|m: int| 0 <= m < kk - k implies #[trigger] f2(m) == 0 by {
                        assert(seq_at(c, i - k - m) == 0);
                        lemma_mul_zero(seq_at(b, m), seq_at(c, i - k - m));
                    }
                    lemma_sum_zero(f2, kk - k);
                    assert(seq_at(bc, i - k) == 0);
                } else {
                    lemma_conv_at_extended(b, c, i - k, kk - k);
                    if i - k < bc.len() {
                        assert(seq_at(bc, i - k) == conv_at(b, c, i - k));
                    } else {
                        lemma_conv_at_zero(b, c, i - k);
                        assert(seq_at(bc, i - k) == 0);
                    }
                }
            }
            assert(seq_at(bc, i - k) * seq_at(a, k) == seq_at(a, k) * seq_at(bc, i - k))
                by (nonlinear_arith);
        }
        lemma_sum_fubini(
            h,
            |j: int| rows(j),
            |k: int| cols(k),
            kk,
            kk,
        );
        lemma_sum_ext(rows, |j: int| rows(j), kk);
        lemma_sum_ext(cols, |k: int| cols(k), kk);
        lemma_conv_at_extended(ab, c, i, kk);
        lemma_conv_at_extended(a, bc, i, kk);
    }
    assert(conv(ab, c) =~= conv(a, bc));
}

/// The distribution of a single die: one way to show each face.
pub open spec fn ones(k: nat) -> Seq<nat> {
    Seq::new(k, |i: int| 1nat)
}

/// Every die has at least one face.
pub open spec fn all_positive(faces: Seq<nat>) -> bool {
    forall|i: int| 0 <= i < faces.len() ==> #[trigger] faces[i] >= 1
}

/// The sum of all face counts: the largest attainable roll.
pub open spec fn faces_total(faces: Seq<nat>) -> nat
    decreases faces.len(),
{
    if faces.len() == 0 {
        0
    } else {
        faces_total(faces.drop_last()) + faces.last()
    }
}

/// The product of all face counts: the number of outcome tuples.
pub open spec fn faces_product(faces: Seq<nat>) -> nat
    decreases faces.len(),
{
    if faces.len() == 0 {
        1
    } else {
        faces_product(faces.drop_last()) * faces.last()
    }
}

/// The count sequence of a multiset of dice, indexed from the smallest sum.
/// `poly_of(faces)[i]` is the number of outcome tuples with total
/// `faces.len() + i`; the empty multiset is the convolution unit.
pub open spec fn poly_of(faces: Seq<nat>) -> Seq<nat>
    decreases faces.len(),
{
    if faces.len() == 0 {
        seq![1nat]
    } else {
        conv(poly_of(faces.drop_last()), ones(faces.last()))
    }
}

/// A dice distribution has one count for each attainable sum.
pub proof fn lemma_poly_len(faces: Seq<nat>)
    requires
        all_positive(faces),
    ensures
        poly_of(faces).len() == faces_total(faces) + 1 - faces.len(),
        poly_of(faces).len() >= 1,
    decreases faces.len(),
{
    if faces.len() > 0 {
        assert(all_positive(faces.drop_last()));
        lemma_poly_len(faces.drop_last());
        assert(faces.last() >= 1);
    }
}

/// Every dice distribution is symmetric: replacing each die's shown value
/// `v` by `sides - v + 1` gives a unique mirror outcome.
pub proof fn lemma_poly_symmetric(faces: Seq<nat>)
    requires
        all_positive(faces),
    ensures
        symmetric(poly_of(faces)),
    decreases faces.len(),
{
    if faces.len() == 0 {
        assert(symmetric(seq![1nat]));
    } else {
        assert(all_positive(faces.drop_last()));
        lemma_poly_symmetric(faces.drop_last());
        lemma_poly_len(faces.drop_last());
        assert(symmetric(ones(faces.last())));
        lemma_conv_symmetric(poly_of(faces.drop_last()), ones(faces.last()));
    }
}

/// A sum of `n` ones is `n`.
proof fn lemma_sum_ones(f: spec_fn(int) -> nat, n: int)
    requires
        n >= 0,
        forall|j: int| 0 <= j < n ==> #[trigger] f(j) == 1,
    ensures
        sum_upto(f, n) == n,
    decreases n,
{
    if n > 0 {
        lemma_sum_ones(f, n - 1);
    }
}

/// Conservation: the counts of a dice distribution total the product of
/// the face counts.
pub proof fn lemma_poly_total(faces: Seq<nat>)
    requires
        all_positive(faces),
    ensures
        seq_total(poly_of(faces)) == faces_product(faces),
    decreases faces.len(),
{
    if faces.len() == 0 {
        let f = |i: int| seq_at(seq![1nat], i);
        assert(sum_upto(f, 1) == sum_upto(f, 0) + f(0));
        assert(f(0) == 1);
        assert(seq_total(seq![1nat]) == 1);
    } else {
        let head = faces.drop_last();
        let k = faces.last();
        assert(all_positive(head));
        lemma_poly_total(head);
        lemma_poly_len(head);
        lemma_conv_total(poly_of(head), ones(k));
        lemma_sum_ones(|i: int| seq_at(ones(k), i), k as int);
        assert(seq_total(ones(k)) == k);
    }
}

/// Combining two dice multisets convolves their distributions.
pub proof fn lemma_poly_append(s: Seq<nat>, t: Seq<nat>)
    requires
        all_positive(s),
        all_positive(t),
    ensures
        poly_of(s + t) == conv(poly_of(s), poly_of(t)),
    decreases t.len(),
{
    lemma_poly_len(s);
    lemma_poly_len(t);
    if t.len() == 0 {
        assert(s + t =~= s);
        lemma_conv_unit(poly_of(s));
    } else {
        let t1 = t.drop_last();
        let k = t.last();
        assert(all_positive(t1));
        assert((s + t).drop_last() =~= s + t1);
        assert((s + t).len() > 0);
        assert((s + t).last() == k);
        lemma_poly_append(s, t1);
        lemma_poly_len(t1);
        lemma_conv_assoc(poly_of(s), poly_of(t1), ones(k));
    }
}

/// Face totals add up over concatenation.
pub proof fn lemma_faces_total_append(s: Seq<nat>, t: Seq<nat>)
    ensures
        faces_total(s + t) == faces_total(s) + faces_total(t),
    decreases t.len(),
{
    if t.len() == 0 {
        assert(s + t =~= s);
    } else {
        assert((s + t).drop_last() =~= s + t.drop_last());
        assert((s + t).len() > 0);
        assert((s + t).last() == t.last());
        lemma_faces_total_append(s, t.drop_last());
    }
}

/// Each face contributes at least one to the total.
pub proof fn lemma_faces_total_lower(faces: Seq<nat>)
    requires
        all_positive(faces),
    ensures
        faces_total(faces) >= faces.len(),
    decreases faces.len(),
{
    if faces.len() > 0 {
        assert(all_positive(faces.drop_last()));
        lemma_faces_total_lower(faces.drop_last());
        assert(faces.last() >= 1);
    }
}

/// A single die of `k` faces: one way to show each of the `k` sums.
pub proof fn lemma_poly_single(k: nat)
    requires
        k >= 1,
    ensures
        poly_of(seq![k]) == ones(k),
{
    assert(seq![k].drop_last() =~= Seq::<nat>::empty());
    assert(seq![k].last() == k);
    assert(poly_of(Seq::<nat>::empty()) == seq![1nat]);
    assert(poly_of(seq![k]) == conv(seq![1nat], ones(k)));
    lemma_conv_comm(seq![1nat], ones(k));
    lemma_conv_unit(ones(k));
}

} // verus!
