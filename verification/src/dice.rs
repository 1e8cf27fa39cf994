//! Dice and ordered multisets of dice.
//!
//! A die is just a positive face count. A `DiceSet` keeps its dice sorted
//! by face count, so that partitioning for the divide-and-conquer engine is
//! deterministic; it can be split at any index into two disjoint halves.

use vstd::prelude::*;
use vstd::string::StringExecFns;

use crate::text::{dec_digits, parse_u8, parse_usize, u64_to_string, uint_str_val, uint_str_valid};

verus! {

/// Why parsing dice notation or building a distribution failed.
#[derive(Clone, Copy, PartialEq, Eq, Structural, Debug)]
pub enum DiceError {
    /// A dice-notation token has no face count at all.
    BadFormat,
    /// The face count of a die does not parse as a positive integer in
    /// range.
    SidesNotInteger,
    /// The number of dice does not parse as an integer in range.
    CountNotInteger,
    /// A worker failed to deliver its sub-distribution.
    Worker,
}

/// The label of a die: a `d` followed by the face count in decimal.
pub open spec fn die_label(n: nat) -> Seq<char> {
    seq!['d'] + dec_digits(n)
}

/// The labels of a sequence of dice, separated by single spaces.
pub open spec fn dice_labels(s: Seq<Die>) -> Seq<char>
    decreases s.len(),
{
    if s.len() == 0 {
        Seq::empty()
    } else if s.len() == 1 {
        die_label(s[0].n as nat)
    } else {
        dice_labels(s.drop_last()) + seq![' '] + die_label(s.last().n as nat)
    }
}

/// A die, modeled by its number of faces (at least one).
#[derive(Clone, Copy, PartialEq, Eq, Structural, Debug)]
pub struct Die {
    pub n: u8,
}

impl Die {
    /// A die with `n` faces.
    pub fn new(n: u8) -> (d: Die)
        requires
            n >= 1,
        ensures
            d.n == n,
    {
        Die { n }
    }

    /// The number of faces.
    pub fn len(&self) -> (l: usize)
        ensures
            l == self.n as usize,
    {
        self.n as usize
    }

    /// The label of the die, such as `d6`.
    pub fn to_string(&self) -> (s: String)
        ensures
            s@ == die_label(self.n as nat),
    {
        let mut s = String::new();
        proof {
            reveal_strlit("d");
        }
        s.append("d");
        let ds = u64_to_string(self.n as u64);
        s.append(ds.as_str());
        proof {
            assert(s@ =~= die_label(self.n as nat));
        }
        s
    }
}

/// The face counts of a sequence of dice.
pub open spec fn faces_of(s: Seq<Die>) -> Seq<nat> {
    s.map_values(|d: Die| d.n as nat)
}

/// Every die in the sequence has at least one face.
pub open spec fn dice_positive(s: Seq<Die>) -> bool {
    forall|i: int| 0 <= i < s.len() ==> #[trigger] s[i].n >= 1
}

/// Sorted by face count, the canonical order of a dice multiset.
pub open spec fn sorted_by_faces(s: Seq<Die>) -> bool {
    forall|i: int, j: int| 0 <= i < j < s.len() ==> #[trigger] s[i].n <= #[trigger] s[j].n
}

/// An ordered multiset of dice, kept sorted by face count.
#[derive(Debug)]
pub struct DiceSet {
    dice: Vec<Die>,
}

impl View for DiceSet {
    type V = Seq<Die>;

    closed spec fn view(&self) -> Seq<Die> {
        self.dice@
    }
}

/// Swapping two positions of a sequence keeps its multiset.
proof fn lemma_swap_multiset(s: Seq<Die>, i: int, j: int)
    requires
        0 <= i < s.len(),
        0 <= j < s.len(),
        i != j,
    ensures
        s.update(i, s[j]).update(j, s[i]).to_multiset() == s.to_multiset(),
{
    broadcast use vstd::seq_lib::to_multiset_update;
    broadcast use vstd::seq_lib::group_to_multiset_ensures;

    let s1 = s.update(i, s[j]);
    assert(s1[j] == s[j]);
    assert(s1.update(j, s[i]).to_multiset() == s1.to_multiset().insert(s[i]).remove(s1[j]));
    assert(s1.to_multiset() == s.to_multiset().insert(s[j]).remove(s[i]));
    assert(s.contains(s[i]));
    assert(s.to_multiset().count(s[i]) > 0);
    assert(s.to_multiset().insert(s[j]).remove(s[i]).insert(s[i]).remove(s[j])
        =~= s.to_multiset());
}

impl DiceSet {
    /// Builds the multiset from any sequence of dice, sorting by face
    /// count. Every sequence, including the empty one, is accepted.
    pub fn new(dice: Vec<Die>) -> (s: DiceSet)
        ensures
            s@.to_multiset() == dice@.to_multiset(),
            s@.len() == dice@.len(),
            sorted_by_faces(s@),
    {
        let mut v = dice;
        let ghost orig = v@;
        let mut i: usize = 0;
        while i < v.len()
            invariant
                0 <= i <= v@.len(),
                v@.len() == orig.len(),
                v@.to_multiset() == orig.to_multiset(),
                sorted_by_faces(v@.take(i as int)),
            decreases v@.len() - i,
        {
            let mut j: usize = i;
            proof {
                assert(v@.take(i as int + 1).remove(i as int) =~= v@.take(i as int));
            }
            while j > 0 && v[j - 1].n > v[j].n
                invariant
                    0 <= j <= i < v@.len(),
                    v@.len() == orig.len(),
                    v@.to_multiset() == orig.to_multiset(),
                    sorted_by_faces(v@.take(i as int + 1).remove(j as int)),
                    forall|k: int| #![trigger v@[k]] j < k <= i ==> v@[k].n >= v@[j as int].n,
                decreases j,
            {
                let ghost before = v@;
                let a = v[j - 1];
                let b = v[j];
                v.set(j - 1, b);
                v.set(j, a);
                proof {
                    lemma_swap_multiset(before, j - 1, j as int);
                    assert(v@ =~= before.update(j - 1, before[j as int]).update(
                        j as int,
                        before[j - 1],
                    ));
                    assert(v@.take(i as int + 1).remove(j - 1) =~= before.take(
                        i as int + 1,
                    ).remove(j as int));
                }
                j -= 1;
            }
            proof {
                let cur = v@.take(i as int + 1);
                let without = cur.remove(j as int);
                assert forall|p: int, q: int| 0 <= p < q < cur.len() implies #[trigger] cur[p].n
                    <= #[trigger] cur[q].n by {
                    if q < j {
                        assert(without[p] == cur[p]);
                        assert(without[q] == cur[q]);
                    } else if p < j && q == j {
                        // the inner loop stopped, so cur[j - 1].n <= cur[j].n
                        assert(without[p] == cur[p]);
                        assert(without[j - 1] == cur[j - 1]);
                        assert(cur[j - 1] == v@[j - 1]);
                        assert(cur[j as int] == v@[j as int]);
                    } else if p < j && q > j {
                        assert(without[p] == cur[p]);
                        assert(without[q - 1] == cur[q]);
                    } else if p == j {
                        assert(cur[q] == v@[q]);
                        assert(cur[p] == v@[p]);
                    } else {
                        assert(without[p - 1] == cur[p]);
                        assert(without[q - 1] == cur[q]);
                    }
                }
                assert(sorted_by_faces(v@.take(i as int + 1)));
            }
            i += 1;
        }
        proof {
            if v@.len() > 0 {
                assert(v@.take(v@.len() as int) =~= v@);
            }
        }
        DiceSet { dice: v }
    }

    /// A multiset holding one die.
    pub fn from_die(d: Die) -> (s: DiceSet)
        ensures
            s@ =~= seq![d],
    {
        let mut v: Vec<Die> = Vec::new();
        v.push(d);
        let s = DiceSet::new(v);
        proof {
            broadcast use vstd::seq_lib::group_to_multiset_ensures;

            assert(s@.to_multiset().len() == 1);
            assert(seq![d].to_multiset().contains(d));
            assert(s@.to_multiset().contains(d));
            assert(s@.contains(d));
            assert(s@[0] == d);
        }
        s
    }

    /// A multiset holding one die of `n` faces.
    pub fn from_u8(n: u8) -> (s: DiceSet)
        requires
            n >= 1,
        ensures
            s@ =~= seq![Die { n }],
    {
        DiceSet::from_die(Die::new(n))
    }

    /// How many dice the multiset holds.
    pub fn len(&self) -> (l: usize)
        ensures
            l == self@.len(),
    {
        self.dice.len()
    }

    /// Gives up the multiset and hands back its dice, in sorted order.
    pub fn into_inner(self) -> (v: Vec<Die>)
        ensures
            v@ == self@,
    {
        self.dice
    }

    /// The die at `ind`, or `None` past the end.
    pub fn get(&self, ind: usize) -> (r: Option<&Die>)
        ensures
            match r {
                Some(d) => ind < self@.len() && *d == self@[ind as int],
                None => ind >= self@.len(),
            },
    {
        if ind < self.dice.len() {
            Some(&self.dice[ind])
        } else {
            None
        }
    }

    /// The labels of all dice in order, separated by spaces.
    pub fn to_string(&self) -> (out: String)
        ensures
            out@ == dice_labels(self@),
    {
        let mut s = String::new();
        let mut i: usize = 0;
        proof {
            assert(self@.take(0) =~= Seq::<Die>::empty());
        }
        while i < self.dice.len()
            invariant
                i <= self@.len(),
                self.dice@ == self@,
                s@ == dice_labels(self@.take(i as int)),
            decreases self@.len() - i,
        {
            if i > 0 {
                proof {
                    reveal_strlit(" ");
                }
                s.append(" ");
            }
            let ds = self.dice[i].to_string();
            s.append(ds.as_str());
            proof {
                let nxt = self@.take(i + 1);
                assert(nxt[i as int] == self@[i as int]);
                if i == 0 {
                    assert(s@ =~= dice_labels(nxt));
                } else {
                    assert(nxt.drop_last() =~= self@.take(i as int));
                    assert(nxt.last() == self@[i as int]);
                    assert(s@ =~= dice_labels(nxt));
                }
            }
            i += 1;
        }
        proof {
            assert(self@.take(self@.len() as int) =~= self@);
        }
        s
    }

    /// Splits the multiset at `ind`: the first `ind` dice and the rest.
    /// The index must be within bounds; both halves stay sorted.
    pub fn partition(self, ind: usize) -> (r: (DiceSet, DiceSet))
        requires
            ind <= self@.len(),
        ensures
            r.0@ == self@.subrange(0, ind as int),
            r.1@ == self@.subrange(ind as int, self@.len() as int),
            sorted_by_faces(self@) ==> sorted_by_faces(r.0@) && sorted_by_faces(r.1@),
    {
        let mut left: Vec<Die> = Vec::new();
        let mut right: Vec<Die> = Vec::new();
        let mut i: usize = 0;
        while i < ind
            invariant
                i <= ind <= self@.len(),
                self.dice@ == self@,
                left@ =~= self@.subrange(0, i as int),
            decreases ind - i,
        {
            left.push(self.dice[i]);
            proof {
                assert(left@ =~= self@.subrange(0, i + 1));
            }
            i += 1;
        }
        while i < self.dice.len()
            invariant
                ind <= i <= self@.len(),
                self.dice@ == self@,
                right@ =~= self@.subrange(ind as int, i as int),
            decreases self@.len() - i,
        {
            right.push(self.dice[i]);
            proof {
                assert(right@ =~= self@.subrange(ind as int, i + 1));
            }
            i += 1;
        }
        proof {
            assert(left@ =~= self@.subrange(0, ind as int));
            assert(right@ =~= self@.subrange(ind as int, self@.len() as int));
        }
        (DiceSet { dice: left }, DiceSet { dice: right })
    }
}



impl Default for Die {
    /// The conventional die: six faces.
    fn default() -> (d: Die)
        ensures
            d.n == 6,
    {
        Die { n: 6 }
    }
}

impl Default for DiceSet {
    /// One six-faced die.
    fn default() -> (s: DiceSet)
        ensures
            s@ =~= seq![Die { n: 6u8 }],
    {
        DiceSet::from_die(Die::new(6))
    }
}

/// The position of the first `c` in `s`, or `-1` if there is none.
pub open spec fn find_char(s: Seq<char>, c: char) -> int
    decreases s.len(),
{
    if s.len() == 0 {
        -1
    } else if s[0] == c {
        0
    } else if find_char(s.drop_first(), c) < 0 {
        -1
    } else {
        find_char(s.drop_first(), c) + 1
    }
}

proof fn lemma_find_char_first(s: Seq<char>, c: char, k: int)
    requires
        0 <= k < s.len(),
        s[k] == c,
        forall|j: int| 0 <= j < k ==> s[j] != c,
    ensures
        find_char(s, c) == k,
    decreases k,
{
    if k > 0 {
        assert(s[0] != c);
        let rest = s.drop_first();
        assert(rest[k - 1] == c);
        assert(forall|j: int| 0 <= j < k - 1 ==> rest[j] == s[j + 1] && s[j + 1] != c);
        lemma_find_char_first(rest, c, k - 1);
    }
}

proof fn lemma_find_char_none(s: Seq<char>, c: char)
    requires
        forall|j: int| 0 <= j < s.len() ==> s[j] != c,
    ensures
        find_char(s, c) == -1,
    decreases s.len(),
{
    if s.len() > 0 {
        let rest = s.drop_first();
        assert(forall|j: int| 0 <= j < rest.len() ==> rest[j] == s[j + 1] && s[j + 1] != c);
        lemma_find_char_none(rest, c);
    }
}

/// Finds the first occurrence of `c`, matching `find_char`.
fn find_char_str(t: &str, c: char) -> (r: Option<usize>)
    ensures
        match r {
            Some(i) => find_char(t@, c) == i && i < t@.len() && t@[i as int] == c,
            None => find_char(t@, c) == -1,
        },
{
    let len = t.unicode_len();
    let mut i: usize = 0;
    while i < len
        invariant
            i <= len,
            len == t@.len(),
            forall|k: int| 0 <= k < i ==> t@[k] != c,
        decreases len - i,
    {
        if t.get_char(i) == c {
            proof {
                lemma_find_char_first(t@, c, i as int);
            }
            return Some(i);
        }
        i += 1;
    }
    proof {
        lemma_find_char_none(t@, c);
    }
    None
}

/// The tokens of `s`, split on every single space.
pub open spec fn split_tokens(s: Seq<char>) -> Seq<Seq<char>>
    decreases s.len(),
{
    let f = find_char(s, ' ');
    if f < 0 || f >= s.len() {
        seq![s]
    } else {
        seq![s.subrange(0, f)] + split_tokens(s.subrange(f + 1, s.len() as int))
    }
}

/// The face-count digits of a token: the characters between the first
/// `d` and the next `d` or the end.
pub open spec fn token_sides_str(t: Seq<char>) -> Seq<char> {
    let rest = t.subrange(find_char(t, 'd') + 1, t.len() as int);
    if find_char(rest, 'd') < 0 {
        rest
    } else {
        rest.subrange(0, find_char(rest, 'd'))
    }
}

/// The dice-count digits of a token: the characters before the first `d`.
pub open spec fn token_count_str(t: Seq<char>) -> Seq<char> {
    t.subrange(0, find_char(t, 'd'))
}

/// One token parsed: how many dice of how many faces, or which error.
/// A token needs a `d`; the face count is checked before the dice count,
/// so an ill-formed face count decides the error.
pub open spec fn parse_token(t: Seq<char>) -> Result<(nat, nat), DiceError> {
    if find_char(t, 'd') < 0 {
        Err(DiceError::BadFormat)
    } else if !(uint_str_valid(token_sides_str(t)) && 1 <= uint_str_val(token_sides_str(t))
        <= u8::MAX) {
        Err(DiceError::SidesNotInteger)
    } else if !(uint_str_valid(token_count_str(t)) && uint_str_val(token_count_str(t))
        <= usize::MAX) {
        Err(DiceError::CountNotInteger)
    } else {
        Ok((uint_str_val(token_count_str(t)), uint_str_val(token_sides_str(t))))
    }
}

/// All tokens parsed in order; the first error wins.
pub open spec fn parse_all(toks: Seq<Seq<char>>) -> Result<Seq<(nat, nat)>, DiceError>
    decreases toks.len(),
{
    if toks.len() == 0 {
        Ok(Seq::empty())
    } else {
        match parse_token(toks[0]) {
            Err(e) => Err(e),
            Ok(p) => match parse_all(toks.drop_first()) {
                Err(e) => Err(e),
                Ok(ps) => Ok(seq![p] + ps),
            },
        }
    }
}

/// `count` copies of a die with `sides` faces.
pub open spec fn repeat_die(p: (nat, nat)) -> Seq<Die> {
    Seq::new(p.0, |i: int| Die { n: p.1 as u8 })
}

/// The dice that a list of parsed tokens denotes.
pub open spec fn expand_pairs(ps: Seq<(nat, nat)>) -> Seq<Die>
    decreases ps.len(),
{
    if ps.len() == 0 {
        Seq::empty()
    } else {
        repeat_die(ps[0]) + expand_pairs(ps.drop_first())
    }
}

/// Every token's face count is a positive byte.
spec fn pairs_positive(ps: Seq<(nat, nat)>) -> bool {
    forall|k: int| 0 <= k < ps.len() ==> 1 <= (#[trigger] ps[k]).1 <= 255
}

proof fn lemma_expand_positive(ps: Seq<(nat, nat)>)
    requires
        pairs_positive(ps),
    ensures
        dice_positive(expand_pairs(ps)),
    decreases ps.len(),
{
    if ps.len() > 0 {
        let rest = ps.drop_first();
        assert(pairs_positive(rest)) by {
            assert(forall|k: int| 0 <= k < rest.len() ==> rest[k] == ps[k + 1]);
        }
        lemma_expand_positive(rest);
        let whole = expand_pairs(ps);
        let head = repeat_die(ps[0]);
        assert forall|i: int| 0 <= i < whole.len() implies (#[trigger] whole[i]).n >= 1 by {
            if i < head.len() {
                assert(whole[i] == head[i]);
                assert(1 <= ps[0].1 <= 255);
            } else {
                assert(whole[i] == expand_pairs(rest)[i - head.len()]);
            }
        }
    }
}

proof fn lemma_expand_push(ps: Seq<(nat, nat)>, p: (nat, nat))
    ensures
        expand_pairs(ps.push(p)) == expand_pairs(ps) + repeat_die(p),
    decreases ps.len(),
{
    if ps.len() == 0 {
        assert(ps.push(p)[0] == p);
        assert(ps.push(p).drop_first() =~= Seq::<(nat, nat)>::empty());
        assert(expand_pairs(Seq::<(nat, nat)>::empty()) =~= Seq::<Die>::empty());
        assert(expand_pairs(ps.push(p)) == repeat_die(p) + expand_pairs(
            ps.push(p).drop_first(),
        ));
        assert(repeat_die(p) + Seq::<Die>::empty() =~= repeat_die(p));
        assert(expand_pairs(ps) + repeat_die(p) =~= repeat_die(p));
    } else {
        assert(ps.push(p).drop_first() =~= ps.drop_first().push(p));
        lemma_expand_push(ps.drop_first(), p);
        assert(ps.push(p)[0] == ps[0]);
        assert(repeat_die(ps[0]) + (expand_pairs(ps.drop_first()) + repeat_die(p)) =~= (
        repeat_die(ps[0]) + expand_pairs(ps.drop_first())) + repeat_die(p));
    }
}

impl Die {
    /// Parses a positive face count, with an optional leading `d`, as in
    /// `d6`; a die has at least one face.
    pub fn from_str(s: &str) -> (r: Result<Die, DiceError>)
        ensures
            r is Ok <==> uint_str_valid(die_str_body(s@)) && 1 <= uint_str_val(die_str_body(s@))
                <= u8::MAX,
            r matches Ok(d) ==> d.n == uint_str_val(die_str_body(s@)),
            r matches Err(e) ==> e == DiceError::SidesNotInteger,
    {
        let len = s.unicode_len();
        let body: &str = if len >= 1 && s.get_char(0) == 'd' {
            s.substring_char(1, len)
        } else {
            s
        };
        proof {
            if len >= 1 && s@[0] == 'd' {
                assert(body@ =~= die_str_body(s@));
            } else {
                assert(body@ =~= die_str_body(s@));
            }
        }
        match parse_u8(body) {
            Some(n) => if n >= 1 {
                Ok(Die { n })
            } else {
                Err(DiceError::SidesNotInteger)
            },
            None => Err(DiceError::SidesNotInteger),
        }
    }
}

/// A die label without its optional leading `d`.
pub open spec fn die_str_body(s: Seq<char>) -> Seq<char> {
    if s.len() >= 1 && s[0] == 'd' {
        s.drop_first()
    } else {
        s
    }
}

impl DiceSet {
    /// Parses dice notation such as `2d6 3d8`: space-separated tokens,
    /// each a dice count, a `d`, and a face count. The result holds the
    /// denoted dice, sorted by face count; the first ill-formed token
    /// decides the error.
    pub fn from_str(s: &str) -> (r: Result<DiceSet, DiceError>)
        ensures
            match r {
                Ok(ds) => parse_all(split_tokens(s@)) matches Ok(ps) && ds@.to_multiset()
                    == expand_pairs(ps).to_multiset() && ds@.len() == expand_pairs(ps).len()
                    && sorted_by_faces(ds@) && dice_positive(ds@),
                Err(e) => parse_all(split_tokens(s@)) == Err::<Seq<(nat, nat)>, DiceError>(e),
            },
    {
        let mut toks: Vec<&str> = Vec::new();
        let mut rest: &str = s;
        loop
            invariant_except_break
                split_tokens(s@) == toks@.map_values(|t: &str| t@) + split_tokens(rest@),
            ensures
                toks@.map_values(|t: &str| t@) == split_tokens(s@),
            decreases rest@.len(),
        {
            let len = rest.unicode_len();
            let ghost before = toks@;
            let ghost rv = rest@;
            match find_char_str(rest, ' ') {
                None => {
                    toks.push(rest);
                    proof {
                        assert(split_tokens(rv) =~= seq![rv]);
                        assert(toks@.map_values(|t: &str| t@) =~= before.map_values(
                            |t: &str| t@,
                        ).push(rv));
                        assert(before.map_values(|t: &str| t@) + seq![rv] =~= toks@.map_values(
                            |t: &str| t@,
                        ));
                        assert(toks@.map_values(|t: &str| t@) =~= split_tokens(s@));
                    }
                    break ;
                },
                Some(f) => {
                    let head = rest.substring_char(0, f);
                    let tail = rest.substring_char(f + 1, len);
                    toks.push(head);
                    proof {
                        assert(split_tokens(rv) == seq![rv.subrange(0, f as int)] + split_tokens(
                            rv.subrange(f + 1, rv.len() as int),
                        ));
                        assert(toks@.map_values(|t: &str| t@) =~= before.map_values(
                            |t: &str| t@,
                        ).push(head@));
                        assert((before.map_values(|t: &str| t@).push(head@)) + split_tokens(tail@)
                            =~= before.map_values(|t: &str| t@) + (seq![head@] + split_tokens(
                            tail@,
                        )));
                    }
                    rest = tail;
                },
            }
        }
        let ghost tviews = toks@.map_values(|t: &str| t@);
        proof {
            assert(tviews =~= split_tokens(s@));
            assert(tviews.subrange(0, tviews.len() as int) =~= tviews);
            match parse_all(tviews) {
                Ok(rs) => {
                    assert(Seq::<(nat, nat)>::empty() + rs =~= rs);
                },
                Err(e) => {},
            }
        }
        let mut dice: Vec<Die> = Vec::new();
        let ghost mut pairs: Seq<(nat, nat)> = Seq::empty();
        let mut k: usize = 0;
        while k < toks.len()
            invariant
                k <= toks@.len(),
                tviews == toks@.map_values(|t: &str| t@),
                tviews == split_tokens(s@),
                dice@ == expand_pairs(pairs),
                pairs_positive(pairs),
                parse_all(tviews) == match parse_all(tviews.subrange(k as int,
                    tviews.len() as int)) {
                    Ok(rs) => Ok::<Seq<(nat, nat)>, DiceError>(pairs + rs),
                    Err(e) => Err::<Seq<(nat, nat)>, DiceError>(e),
                },
            decreases toks@.len() - k,
        {
            let t: &str = toks[k];
            let tlen = t.unicode_len();
            let ghost tv = tviews[k as int];
            let ghost remaining = tviews.subrange(k as int, tviews.len() as int);
            proof {
                assert(tv == t@);
                assert(remaining[0] == tv);
                assert(remaining.drop_first() =~= tviews.subrange(k + 1, tviews.len() as int));
            }
            let dpos = match find_char_str(t, 'd') {
                Some(f) => f,
                None => {
                    proof {
                        assert(parse_token(tv) == Err::<(nat, nat), DiceError>(
                            DiceError::BadFormat,
                        ));
                        assert(parse_all(remaining) == Err::<Seq<(nat, nat)>, DiceError>(
                            DiceError::BadFormat,
                        ));
                    }
                    return Err(DiceError::BadFormat);
                },
            };
            let after = t.substring_char(dpos + 1, tlen);
            let sides_str: &str = match find_char_str(after, 'd') {
                Some(f2) => after.substring_char(0, f2),
                None => after,
            };
            proof {
                assert(after@ =~= tv.subrange(find_char(tv, 'd') + 1, tv.len() as int));
                assert(sides_str@ =~= token_sides_str(tv));
            }
            let sides = match parse_u8(sides_str) {
                Some(n) if n >= 1 => n,
                _ => {
                    proof {
                        assert(parse_token(tv) == Err::<(nat, nat), DiceError>(
                            DiceError::SidesNotInteger,
                        ));
                        assert(parse_all(remaining) == Err::<Seq<(nat, nat)>, DiceError>(
                            DiceError::SidesNotInteger,
                        ));
                    }
                    return Err(DiceError::SidesNotInteger);
                },
            };
            let count_str = t.substring_char(0, dpos);
            proof {
                assert(count_str@ =~= token_count_str(tv));
            }
            let count = match parse_usize(count_str) {
                Some(m) => m,
                None => {
                    proof {
                        assert(parse_token(tv) == Err::<(nat, nat), DiceError>(
                            DiceError::CountNotInteger,
                        ));
                        assert(parse_all(remaining) == Err::<Seq<(nat, nat)>, DiceError>(
                            DiceError::CountNotInteger,
                        ));
                    }
                    return Err(DiceError::CountNotInteger);
                },
            };
            let ghost p = (count as nat, sides as nat);
            let ghost before_dice = dice@;
            let mut c: usize = 0;
            while c < count
                invariant
                    c <= count,
                    dice@ =~= before_dice + Seq::new(c as nat, |i: int| Die { n: sides }),
                decreases count - c,
            {
                dice.push(Die { n: sides });
                proof {
                    assert(dice@ =~= before_dice + Seq::new((c + 1) as nat,
                        |i: int| Die { n: sides }));
                }
                c += 1;
            }
            proof {
                assert(Seq::new(count as nat, |i: int| Die { n: sides }) =~= repeat_die(p));
                lemma_expand_push(pairs, p);
                let oldpairs = pairs;
                pairs = pairs.push(p);
                assert(dice@ == expand_pairs(pairs));
                assert(parse_token(tv) == Ok::<(nat, nat), DiceError>(p));
                let nxt = tviews.subrange(k + 1, tviews.len() as int);
                assert(parse_all(remaining) == match parse_all(nxt) {
                    Ok(rs) => Ok::<Seq<(nat, nat)>, DiceError>(seq![p] + rs),
                    Err(e) => Err::<Seq<(nat, nat)>, DiceError>(e),
                });
                match parse_all(nxt) {
                    Ok(rs) => {
                        assert(oldpairs + (seq![p] + rs) =~= pairs + rs);
                    },
                    Err(e) => {},
                }
            }
            k += 1;
        }
        proof {
            assert(tviews.subrange(k as int, tviews.len() as int) =~= Seq::<Seq<char>>::empty());
            assert(pairs + Seq::<(nat, nat)>::empty() =~= pairs);
            lemma_expand_positive(pairs);
        }
        let ds = DiceSet::new(dice);
        proof {
            broadcast use vstd::seq_lib::group_to_multiset_ensures;

            assert forall|i: int| 0 <= i < ds@.len() implies (#[trigger] ds@[i]).n >= 1 by {
                assert(ds@.contains(ds@[i]));
                assert(ds@.to_multiset().count(ds@[i]) > 0);
                assert(dice@.to_multiset().count(ds@[i]) > 0);
                assert(dice@.contains(ds@[i]));
                let j = choose|j: int| 0 <= j < dice@.len() && dice@[j] == ds@[i];
                assert(dice@[j].n >= 1);
            }
        }
        Ok(ds)
    }
}

} // verus!
