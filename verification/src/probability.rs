//! The distribution engine: exact sum distributions of dice multisets.
//!
//! A `Distribution` holds, for every attainable sum between `min` and
//! `max`, the exact number of outcome tuples producing that sum. It is
//! built from a `DiceSet` by divide and conquer: a single die is the base
//! case, larger multisets are split at a balancing index, the halves are
//! built recursively, and the results are combined by convolution,
//! mirroring the symmetric upper half to halve the multiplication work.

use vstd::prelude::*;
use vstd::string::StringExecFns;

use crate::bignat::BigNat;
use crate::convolution::{
    all_positive, conv, conv_at, conv_partial, conv_term, faces_total, lemma_conv_assoc,
    lemma_conv_comm,
    lemma_conv_partial_full, lemma_conv_partial_step, lemma_conv_symmetric,
    lemma_faces_total_append, lemma_faces_total_lower, lemma_mul_zero, lemma_poly_append,
    lemma_poly_len, lemma_poly_single, lemma_poly_symmetric, lemma_seq_total_full,
    lemma_seq_total_step, poly_of, seq_at, seq_total, seq_total_upto, symmetric,
};
use crate::dice::{dice_positive, faces_of, DiceError, DiceSet};
use crate::text::{dec_digits, u64_to_string};

verus! {

/// Powers of two, for the balancing split.
pub open spec fn pow2(k: nat) -> nat
    decreases k,
{
    if k == 0 {
        1
    } else {
        2 * pow2((k - 1) as nat)
    }
}

/// The largest power of two strictly below `m`: the balancing split index
/// of the recursive engine. The three clauses pin it down: among powers of
/// two, exactly one `r` satisfies `r < m <= 2 * r`.
fn int_log(m: usize) -> (r: usize)
    requires
        2 <= m,
        m <= usize::MAX / 2 + 1,
    ensures
        1 <= r < m,
        m <= 2 * r,
        exists|k: nat| r == pow2(k),
{
    let mut current: usize = 1;
    let mut next: usize = 2;
    let ghost mut gk: nat = 0;
    proof {
        assert(pow2(0) == 1);
        assert(pow2(1) == 2);
    }
    while next < m
        invariant
            1 <= current < m,
            m <= usize::MAX / 2 + 1,
            next == 2 * current,
            current == pow2(gk),
        decreases m - current,
    {
        current = next;
        next = next * 2;
        proof {
            gk = gk + 1;
            assert(pow2(gk) == 2 * pow2((gk - 1) as nat));
        }
    }
    current
}


/// The header of a rendered distribution.
pub open spec fn dist_header(min: int, max: int, size: int, n: int) -> Seq<char> {
    "min: "@ + dec_digits(min as nat) + ", max: "@ + dec_digits(max as nat) + ", size: "@
        + dec_digits(size as nat) + ", n: "@ + dec_digits(n as nat)
}

/// The first `j` sum lines of a rendered distribution: each sum beside
/// its count, in ascending order.
pub open spec fn dist_lines(counts: Seq<nat>, min: int, off: int, j: int) -> Seq<char>
    decreases j,
{
    if j <= 0 {
        Seq::empty()
    } else {
        dist_lines(counts, min, off, j - 1) + seq!['\n'] + dec_digits((min + j - 1) as nat)
            + seq![':', ' '] + dec_digits(counts[off + j - 1])
    }
}

/// The exact distribution of sums of a dice multiset.
///
/// `dist[i]` is the count of outcome tuples with total `min + i`; `min`
/// is the number of dice (all ones), `max` the sum of all face counts
/// (all maxed), `size` the number of attainable sums, `n` the number of
/// dice, and `pos` the cursor of the one-shot forward traversal.
pub struct Distribution {
    dist: Vec<BigNat>,
    min: usize,
    max: usize,
    size: usize,
    n: usize,
    pos: usize,
}

impl Distribution {
    /// The counts in ascending sum order.
    pub closed spec fn counts(&self) -> Seq<nat> {
        self.dist@.map_values(|b: BigNat| b@)
    }

    pub closed spec fn spec_min(&self) -> int {
        self.min as int
    }

    pub closed spec fn spec_max(&self) -> int {
        self.max as int
    }

    pub closed spec fn spec_size(&self) -> int {
        self.size as int
    }

    pub closed spec fn spec_n(&self) -> int {
        self.n as int
    }

    pub closed spec fn spec_pos(&self) -> int {
        self.pos as int
    }

    /// Internal consistency of a built distribution.
    pub closed spec fn wf(&self) -> bool {
        &&& self.size == self.dist@.len()
        &&& (forall|i: int| 0 <= i < self.dist@.len() ==> #[trigger] self.dist@[i].wf())
        &&& (self.size == 0 ==> self.min == 0 && self.max == 0 && self.n == 0)
        &&& (self.size >= 1 ==> self.min >= 1 && self.min == self.n && self.max == self.min
            + self.size - 1 && self.max < usize::MAX && self.min <= self.pos)
    }

    /// The bookkeeping of a built distribution: one count per attainable
    /// sum, `max` at the far end of the range, `min` equal to the number
    /// of dice, and the degenerate empty distribution pinned to zeros.
    pub proof fn lemma_shape(&self)
        requires
            self.wf(),
        ensures
            self.spec_size() == self.counts().len(),
            self.spec_size() >= 1 ==> self.spec_max() == self.spec_min() + self.spec_size() - 1
                && self.spec_min() == self.spec_n() && self.spec_min() >= 1,
            self.spec_size() == 0 ==> self.spec_min() == 0 && self.spec_max() == 0
                && self.spec_n() == 0,
    {
    }

    /// The number of distinct attainable sums.
    pub fn len(&self) -> (l: usize)
        ensures
            l == self.spec_size(),
    {
        self.size
    }

    /// The count for the sum `ind`, or `None` outside `[min, max]`.
    pub fn get(&self, ind: usize) -> (r: Option<&BigNat>)
        requires
            self.wf(),
        ensures
            match r {
                Some(b) => self.spec_min() <= ind <= self.spec_max() && self.spec_size() >= 1
                    && b@ == self.counts()[ind - self.spec_min()],
                None => self.spec_size() == 0 || ind < self.spec_min() || ind > self.spec_max(),
            },
    {
        if self.size >= 1 && self.min <= ind && ind <= self.max {
            Some(&self.dist[ind - self.min])
        } else {
            None
        }
    }

    /// The next count of the one-shot forward traversal, in ascending sum
    /// order, or `None` once the cursor has passed `max`. The cursor
    /// advances on every call, saturating only at the machine's limit.
    pub fn next(&mut self) -> (r: Option<BigNat>)
        requires
            old(self).wf(),
        ensures
            final(self).wf(),
            final(self).counts() == old(self).counts(),
            final(self).spec_min() == old(self).spec_min(),
            final(self).spec_max() == old(self).spec_max(),
            final(self).spec_size() == old(self).spec_size(),
            final(self).spec_n() == old(self).spec_n(),
            final(self).spec_pos() == if old(self).spec_pos() < usize::MAX {
                old(self).spec_pos() + 1
            } else {
                old(self).spec_pos()
            },
            match r {
                Some(b) => old(self).spec_size() >= 1 && old(self).spec_pos() <= old(
                    self,
                ).spec_max() && b@ == old(self).counts()[old(self).spec_pos() - old(
                    self,
                ).spec_min()],
                None => old(self).spec_size() == 0 || old(self).spec_pos() > old(
                    self,
                ).spec_max(),
            },
    {
        if self.size >= 1 && self.pos <= self.max {
            let out = self.dist[self.pos - self.min].duplicate();
            self.pos = self.pos + 1;
            Some(out)
        } else {
            if self.pos < usize::MAX {
                self.pos = self.pos + 1;
            }
            None
        }
    }


    /// The exact probability of each sum, in ascending order, as a
    /// fraction: the count over the total of all counts. The float view,
    /// if one is wanted, is a division the caller performs.
    pub fn probabilities(&self) -> (r: Vec<(BigNat, BigNat)>)
        requires
            self.wf(),
        ensures
            r@.len() == self.counts().len(),
            forall|i: int| 0 <= i < r@.len() ==> (#[trigger] r@[i]).0@ == self.counts()[i]
                && r@[i].1@ == seq_total(self.counts()) && r@[i].0.wf() && r@[i].1.wf(),
    {
        let ghost cs = self.counts();
        let mut total = BigNat::zero();
        let mut j: usize = 0;
        while j < self.dist.len()
            invariant
                j <= self.dist@.len(),
                self.wf(),
                cs == self.counts(),
                total.wf(),
                total@ == seq_total_upto(cs, j as int),
            decreases self.dist@.len() - j,
        {
            proof {
                lemma_seq_total_step(cs, j as int);
                assert(seq_at(cs, j as int) == self.dist@[j as int]@);
            }
            total = total.add(&self.dist[j]);
            j += 1;
        }
        proof {
            lemma_seq_total_full(cs);
        }
        let mut r: Vec<(BigNat, BigNat)> = Vec::new();
        let mut i: usize = 0;
        while i < self.dist.len()
            invariant
                i <= self.dist@.len(),
                self.wf(),
                cs == self.counts(),
                total.wf(),
                total@ == seq_total(cs),
                r@.len() == i,
                forall|k: int| 0 <= k < i ==> (#[trigger] r@[k]).0@ == cs[k] && r@[k].1@
                    == seq_total(cs) && r@[k].0.wf() && r@[k].1.wf(),
            decreases self.dist@.len() - i,
        {
            r.push((self.dist[i].duplicate(), total.duplicate()));
            i += 1;
        }
        r
    }

    /// Combines two sub-distributions by convolution. The upper half of
    /// the output mirrors the lower half, which is sound because both
    /// operands are symmetric.
    #[verifier::rlimit(100)]
    pub fn add(self, other: Distribution) -> (r: Distribution)
        requires
            self.wf(),
            other.wf(),
            self.spec_size() >= 1,
            other.spec_size() >= 1,
            symmetric(self.counts()),
            symmetric(other.counts()),
            self.spec_max() + other.spec_max() < usize::MAX,
        ensures
            r.wf(),
            r.counts() == conv(self.counts(), other.counts()),
            r.spec_min() == self.spec_min() + other.spec_min(),
            r.spec_max() == self.spec_max() + other.spec_max(),
            r.spec_size() == self.spec_size() + other.spec_size() - 1,
            r.spec_size() == r.spec_max() - r.spec_min() + 1,
            r.spec_size() == r.counts().len(),
            r.spec_n() == self.spec_n() + other.spec_n(),
            r.spec_pos() == r.spec_min(),
            symmetric(r.counts()),
    {
        let min = self.min + other.min;
        let max = self.max + other.max;
        let size = max - min + 1;
        let n = self.n + other.n;
        let halfway = size / 2 + size % 2;
        let ghost ac = self.counts();
        let ghost bc = other.counts();
        let swapped = other.size < self.size;
        let (smaller, larger) = if swapped {
            (other, self)
        } else {
            (self, other)
        };
        let ghost sc = smaller.counts();
        let ghost lc = larger.counts();
        let ghost cv = conv(sc, lc);
        proof {
            lemma_conv_symmetric(sc, lc);
            if swapped {
                lemma_conv_comm(ac, bc);
            }
            assert(cv.len() == size);
        }
        let mut dist: Vec<BigNat> = Vec::new();
        let mut i: usize = 0;
        while i < size
            invariant
                i <= size,
                size == smaller.spec_size() + larger.spec_size() - 1,
                size >= 1,
                halfway == size / 2 + size % 2,
                min == smaller.spec_min() + larger.spec_min(),
                smaller.wf(),
                larger.wf(),
                smaller.spec_size() >= 1,
                larger.spec_size() >= 1,
                sc == smaller.counts(),
                lc == larger.counts(),
                cv == conv(sc, lc),
                symmetric(cv),
                cv.len() == size,
                dist@.len() == i,
                forall|k: int| 0 <= k < i ==> (#[trigger] dist@[k]).wf() && dist@[k]@ == cv[k],
            decreases size - i,
        {
            if i >= halfway {
                let idx = size - 1 - i;
                let val = dist[idx].duplicate();
                proof {
                    assert(cv[size - 1 - i] == cv[size - 1 - (size - 1 - i)]);
                }
                dist.push(val);
            } else {
                let jmax: usize = if i + 1 <= smaller.size {
                    i + 1
                } else {
                    smaller.size
                };
                let mut acc = BigNat::zero();
                let mut j: usize = 0;
                while j < jmax
                    invariant
                        j <= jmax,
                        jmax == if i + 1 <= smaller.spec_size() {
                            i + 1
                        } else {
                            smaller.spec_size()
                        },
                        i < size,
                        size == smaller.spec_size() + larger.spec_size() - 1,
                        smaller.wf(),
                        larger.wf(),
                        sc == smaller.counts(),
                        lc == larger.counts(),
                        acc.wf(),
                        acc@ == conv_partial(sc, lc, i as int, j as int),
                    decreases jmax - j,
                {
                    proof {
                        lemma_conv_partial_step(sc, lc, i as int, j as int);
                    }
                    if i - j < larger.size {
                        let t = smaller.dist[j].mul(&larger.dist[i - j]);
                        proof {
                            assert(seq_at(sc, j as int) == sc[j as int]);
                            assert(seq_at(lc, i - j) == lc[i - j]);
                            assert(conv_term(sc, lc, i as int, j as int) == sc[j as int] * lc[i
                                - j]);
                        }
                        acc = acc.add(&t);
                    } else {
                        proof {
                            assert(seq_at(lc, i - j) == 0);
                            lemma_mul_zero(seq_at(sc, j as int), seq_at(lc, i - j));
                            assert(conv_term(sc, lc, i as int, j as int) == 0);
                        }
                    }
                    j += 1;
                }
                proof {
                    lemma_conv_partial_full(sc, lc, i as int, jmax as int);
                    assert(acc@ == conv_at(sc, lc, i as int));
                    assert(cv[i as int] == conv_at(sc, lc, i as int));
                }
                dist.push(acc);
            }
            i += 1;
        }
        let r = Distribution { dist, min, max, size, n, pos: min };
        proof {
            assert(r.counts() =~= cv);
        }
        r
    }


    /// Renders the distribution: the header, then one `sum: count` line
    /// for every sum the traversal has not yet passed.
    pub fn into_string(self) -> (s: String)
        requires
            self.wf(),
        ensures
            s@ == dist_header(self.spec_min(), self.spec_max(), self.spec_size(), self.spec_n())
                + dist_lines(
                self.counts(),
                self.spec_min(),
                self.spec_pos() - self.spec_min(),
                if self.spec_size() >= 1 && self.spec_pos() <= self.spec_max() {
                    self.spec_max() - self.spec_pos() + 1
                } else {
                    0
                },
            ),
    {
        let ghost header = dist_header(
            self.spec_min(),
            self.spec_max(),
            self.spec_size(),
            self.spec_n(),
        );
        let mut s = String::new();
        s.append("min: ");
        let t1 = u64_to_string(self.min as u64);
        s.append(t1.as_str());
        s.append(", max: ");
        let t2 = u64_to_string(self.max as u64);
        s.append(t2.as_str());
        s.append(", size: ");
        let t3 = u64_to_string(self.size as u64);
        s.append(t3.as_str());
        s.append(", n: ");
        let t4 = u64_to_string(self.n as u64);
        s.append(t4.as_str());
        proof {
            assert(s@ =~= header);
        }
        let cnt: usize = if self.size >= 1 && self.pos <= self.max {
            self.max - self.pos + 1
        } else {
            0
        };
        let mut j: usize = 0;
        while j < cnt
            invariant
                j <= cnt,
                self.wf(),
                cnt == if self.spec_size() >= 1 && self.spec_pos() <= self.spec_max() {
                    self.spec_max() - self.spec_pos() + 1
                } else {
                    0
                },
                header == dist_header(
                    self.spec_min(),
                    self.spec_max(),
                    self.spec_size(),
                    self.spec_n(),
                ),
                s@ == header + dist_lines(
                    self.counts(),
                    self.spec_min(),
                    self.spec_pos() - self.spec_min(),
                    j as int,
                ),
            decreases cnt - j,
        {
            proof {
                reveal_strlit("\n");
                reveal_strlit(": ");
            }
            s.append("\n");
            let label = u64_to_string((self.min + j) as u64);
            s.append(label.as_str());
            s.append(": ");
            let cs = self.dist[self.pos - self.min + j].to_decimal();
            s.append(cs.as_str());
            proof {
                let off = self.spec_pos() - self.spec_min();
                assert(self.counts()[off + j] == self.dist@[off + j]@);
                assert(s@ =~= header + dist_lines(self.counts(), self.spec_min(), off, j + 1));
            }
            j += 1;
        }
        s
    }


    /// Combination is associative: for any three built, nonempty
    /// distributions, grouping does not change the combined counts (and
    /// with the combine contract, neither min, max, size nor n).
    pub proof fn lemma_add_assoc(a: &Distribution, b: &Distribution, c: &Distribution)
        requires
            a.wf(),
            b.wf(),
            c.wf(),
            a.spec_size() >= 1,
            b.spec_size() >= 1,
            c.spec_size() >= 1,
        ensures
            conv(conv(a.counts(), b.counts()), c.counts()) == conv(
                a.counts(),
                conv(b.counts(), c.counts()),
            ),
    {
        a.lemma_shape();
        b.lemma_shape();
        c.lemma_shape();
        lemma_conv_assoc(a.counts(), b.counts(), c.counts());
    }

    /// Builds the distribution of a dice multiset.
    ///
    /// The empty multiset yields the degenerate empty distribution. A
    /// single die of `k` faces yields one way for each sum in `[1, k]`.
    /// Larger multisets are split at the balancing index, the two halves
    /// are built recursively, and the results are combined by
    /// convolution; the order of the halves never affects the result.
    /// The computation always succeeds; `DiceError::Worker` is the
    /// failure a driver that farms the halves out to workers would
    /// report when a worker dies, and such a driver may bubble it up
    /// through the same `Result`.
    pub fn try_from(dice: DiceSet) -> (r: Result<Distribution, DiceError>)
        requires
            dice_positive(dice@),
            faces_total(faces_of(dice@)) < usize::MAX,
            dice@.len() <= usize::MAX / 2,
        ensures
            r is Ok,
            match r {
                Ok(d) => d.wf() && d.spec_n() == dice@.len() && d.spec_pos() == d.spec_min()
                    && d.spec_size() == d.counts().len() && (dice@.len() == 0 ==> d.spec_size()
                    == 0 && d.spec_min() == 0 && d.spec_max() == 0 && d.counts().len() == 0) && (
                dice@.len() >= 1 ==> d.spec_min() == dice@.len() && d.spec_max() == faces_total(
                    faces_of(dice@),
                ) && d.counts() == poly_of(faces_of(dice@)) && d.spec_size() == d.spec_max()
                    - d.spec_min() + 1 && d.spec_size() >= 1 && symmetric(d.counts())),
                Err(e) => e == DiceError::Worker,
            },
        decreases dice@.len(),
    {
        let m = dice.len();
        if m == 0 {
            Ok(
                Distribution {
                    dist: Vec::new(),
                    min: 0,
                    max: 0,
                    size: 0,
                    n: 0,
                    pos: 0,
                },
            )
        } else if m == 1 {
            let sides: usize = match dice.get(0) {
                Some(d) => d.len(),
                None => 0,
            };
            let ghost faces = faces_of(dice@);
            proof {
                assert(faces =~= seq![dice@[0].n as nat]);
                assert(all_positive(faces));
                lemma_poly_single(dice@[0].n as nat);
                lemma_poly_symmetric(faces);
                assert(faces_total(faces) == faces_total(faces.drop_last()) + faces.last());
                assert(faces.drop_last() =~= Seq::<nat>::empty());
            }
            let mut dist: Vec<BigNat> = Vec::new();
            let mut i: usize = 0;
            while i < sides
                invariant
                    i <= sides,
                    dist@.len() == i,
                    forall|k: int| 0 <= k < i ==> (#[trigger] dist@[k]).wf() && dist@[k]@ == 1,
                decreases sides - i,
            {
                dist.push(BigNat::one());
                i += 1;
            }
            let d = Distribution { dist, min: 1, max: sides, size: sides, n: 1, pos: 1 };
            proof {
                assert(d.counts() =~= poly_of(faces));
            }
            Ok(d)
        } else {
            let split = int_log(m);
            let ghost whole = dice@;
            let ghost faces = faces_of(whole);
            let (set1, set2) = dice.partition(split);
            let ghost f1 = faces_of(set1@);
            let ghost f2 = faces_of(set2@);
            proof {
                assert(whole =~= set1@ + set2@);
                assert(faces =~= f1 + f2);
                assert(all_positive(f1));
                assert(all_positive(f2));
                lemma_faces_total_append(f1, f2);
                lemma_faces_total_lower(f1);
                lemma_faces_total_lower(f2);
            }
            let dist2 = match Distribution::try_from(set2) {
                Ok(d) => d,
                Err(e) => {
                    return Err(e);
                },
            };
            let dist1 = match Distribution::try_from(set1) {
                Ok(d) => d,
                Err(e) => {
                    return Err(e);
                },
            };
            proof {
                lemma_poly_append(f1, f2);
                lemma_poly_len(f1);
                lemma_poly_len(f2);
            }
            Ok(dist1.add(dist2))
        }
    }
}

} // verus!
