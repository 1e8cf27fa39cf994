//! Rolling dice once: a single random outcome per die.
//!
//! Rolling is separate from the distribution engine: it draws one value
//! per die and records which die produced which value. Randomness comes
//! from the process-wide generator; nothing more than the range of each
//! drawn value is promised.

use rand::Rng;
use vstd::prelude::*;
use vstd::string::StringExecFns;

use crate::dice::{dice_positive, die_label, Die, DiceSet};
use crate::text::{dec_digits, u64_to_string};

verus! {

/// Anything that can be rolled into an `Outcome`.
pub trait Roll {
    /// Whether every die of the value can be rolled.
    spec fn rollable(&self) -> bool;

    /// Consumes the value and rolls each of its dice once.
    fn roll(self) -> (o: Outcome) where Self: Sized
        requires
            self.rollable(),
        ensures
            o.wf(),
    ;
}

/// The result of one roll: each die beside the value it showed.
pub struct Outcome {
    pub dice: Vec<Die>,
    pub outcomes: Vec<u8>,
    pub pos: usize,
}

/// The rendering of the outcomes from position `i` on: one `die: value`
/// line per die, separated by line breaks.
pub open spec fn outcome_lines(dice: Seq<Die>, outs: Seq<u8>, i: int) -> Seq<char>
    decreases dice.len() - i,
{
    if i < 0 || i >= dice.len() {
        Seq::empty()
    } else {
        let line = die_label(dice[i].n as nat) + seq![':', ' '] + dec_digits(outs[i] as nat);
        if i == dice.len() - 1 {
            line
        } else {
            line + seq!['\n'] + outcome_lines(dice, outs, i + 1)
        }
    }
}

impl Outcome {
    /// One recorded value per die.
    pub open spec fn wf(&self) -> bool {
        self.dice@.len() == self.outcomes@.len()
    }

    /// The traversal cursor.
    pub open spec fn spec_pos(&self) -> int {
        self.pos as int
    }

    /// Pairs each die with the value it showed, starting the traversal
    /// at the first die.
    pub fn new(dice: Vec<Die>, outcomes: Vec<u8>) -> (o: Outcome)
        requires
            dice@.len() == outcomes@.len(),
        ensures
            o.wf(),
            o.dice@ == dice@,
            o.outcomes@ == outcomes@,
            o.spec_pos() == 0,
    {
        Outcome { dice, outcomes, pos: 0 }
    }

    /// The next die and its value, or `None` past the last die. The
    /// cursor advances on every call, saturating only at the machine's
    /// limit.
    pub fn next(&mut self) -> (r: Option<(Die, u8)>)
        requires
            old(self).wf(),
        ensures
            final(self).wf(),
            final(self).dice@ == old(self).dice@,
            final(self).outcomes@ == old(self).outcomes@,
            final(self).spec_pos() == if old(self).spec_pos() < usize::MAX {
                old(self).spec_pos() + 1
            } else {
                old(self).spec_pos()
            },
            match r {
                Some(p) => old(self).spec_pos() < old(self).dice@.len() && p.0 == old(
                    self,
                ).dice@[old(self).spec_pos()] && p.1 == old(self).outcomes@[old(self).spec_pos()],
                None => old(self).spec_pos() >= old(self).dice@.len(),
            },
    {
        if self.pos < self.dice.len() {
            let d = self.dice[self.pos];
            let v = self.outcomes[self.pos];
            self.pos = self.pos + 1;
            Some((d, v))
        } else {
            if self.pos < usize::MAX {
                self.pos = self.pos + 1;
            }
            None
        }
    }

    /// The lines from position `i` on.
    fn render_from(&self, i: usize) -> (s: String)
        requires
            self.wf(),
        ensures
            s@ == outcome_lines(self.dice@, self.outcomes@, i as int),
        decreases self.dice@.len() - i,
    {
        if i >= self.dice.len() {
            String::new()
        } else {
            let mut s = self.dice[i].to_string();
            proof {
                reveal_strlit(": ");
            }
            s.append(": ");
            let vs = u64_to_string(self.outcomes[i] as u64);
            s.append(vs.as_str());
            if i + 1 < self.dice.len() {
                proof {
                    reveal_strlit("\n");
                }
                s.append("\n");
                let rest = self.render_from(i + 1);
                s.append(rest.as_str());
                proof {
                    assert(s@ =~= outcome_lines(self.dice@, self.outcomes@, i as int));
                }
            } else {
                proof {
                    assert(s@ =~= outcome_lines(self.dice@, self.outcomes@, i as int));
                }
            }
            s
        }
    }

    /// Renders the remaining outcomes, one `die: value` line each.
    pub fn into_string(self) -> (s: String)
        requires
            self.wf(),
        ensures
            s@ == outcome_lines(self.dice@, self.outcomes@, self.spec_pos()),
    {
        self.render_from(self.pos)
    }
}

/// Relies on rand's `Rng::gen_range` over `1..=n`: it returns a value in
/// that range, and panics only on an empty range, which `n >= 1` rules
/// out.
#[verifier::external_body]
fn roll_die_value(n: u8) -> (r: u8)
    requires
        n >= 1,
    ensures
        1 <= r <= n,
{
    rand::thread_rng().gen_range(1..=n)
}

impl Roll for DiceSet {
    /// Every die needs at least one face to land on.
    open spec fn rollable(&self) -> bool {
        dice_positive(self@)
    }

    /// Rolls each die of the multiset once, in sorted order.
    fn roll(self) -> (o: Outcome)
        ensures
            o.wf(),
            o.dice@ == self@,
            o.outcomes@.len() == self@.len(),
            forall|i: int| 0 <= i < self@.len() ==> 1 <= #[trigger] o.outcomes@[i]
                <= self@[i].n,
            o.spec_pos() == 0,
    {
        let ghost dseq = self@;
        let dice = self.into_inner();
        let mut outcomes: Vec<u8> = Vec::new();
        let mut i: usize = 0;
        while i < dice.len()
            invariant
                i <= dice@.len(),
                dice@ == dseq,
                dice_positive(dseq),
                outcomes@.len() == i,
                forall|k: int| 0 <= k < i ==> 1 <= #[trigger] outcomes@[k] <= dseq[k].n,
            decreases dice@.len() - i,
        {
            let v = roll_die_value(dice[i].n);
            outcomes.push(v);
            i += 1;
        }
        Outcome::new(dice, outcomes)
    }
}

} // verus!
