//! Rolling the dice: one sample, a running series of samples, and the sum of
//! all of them.

use vstd::prelude::*;
use rand::Rng;
use crate::notation::{DiceRoll, RollModel};

verus! {

/// Whether `samples` can be what the dice of `roll` show: one sample for each
/// die, each between one and the number of faces.
pub open spec fn is_outcome(roll: RollModel, samples: Seq<u64>) -> bool {
    &&& samples.len() == roll.repetitions
    &&& forall|i: int| 0 <= i < samples.len() ==> 1 <= (#[trigger] samples[i]) <= roll.faces
}

/// The sum of `values`.
pub open spec fn total(values: Seq<u64>) -> nat
    decreases values.len(),
{
    if values.len() == 0 {
        0
    } else {
        total(values.drop_last()) + values.last() as nat
    }
}

/// The sum of `values` as a `u64`, where it fits in one.
pub open spec fn checked_total(values: Seq<u64>) -> Option<u64> {
    if total(values) <= u64::MAX {
        Some(total(values) as u64)
    } else {
        None
    }
}

/// Whether `sum` can be what rolling `roll` and adding up gives: the sum of
/// some outcome of the roll, or `None` where that sum does not fit in a `u64`.
pub open spec fn is_sum_of(roll: RollModel, sum: Option<u64>) -> bool {
    exists|samples: Seq<u64>| #[trigger] is_outcome(roll, samples) && sum == checked_total(samples)
}

/// The sum of two series put end to end is the sum of their sums, so a
/// series may be cut anywhere and its pieces summed apart.
pub proof fn lemma_total_concat(a: Seq<u64>, b: Seq<u64>)
    ensures
        total(a + b) == total(a) + total(b),
    decreases b.len(),
{
    if b.len() == 0 {
        assert(a + b =~= a);
    } else {
        assert((a + b).drop_last() =~= a + b.drop_last());
        lemma_total_concat(a, b.drop_last());
    }
}

/// The sum of what the dice show is at least the number of dice, and at most
/// the number of dice times the number of faces.
pub proof fn lemma_total_bounds(roll: RollModel, samples: Seq<u64>)
    requires
        is_outcome(roll, samples),
    ensures
        roll.repetitions <= total(samples) <= roll.repetitions * roll.faces,
    decreases samples.len(),
{
    if samples.len() > 0 {
        let rest = RollModel { repetitions: (roll.repetitions - 1) as nat, faces: roll.faces };
        lemma_total_bounds(rest, samples.drop_last());
        assert(roll.repetitions * roll.faces == rest.repetitions * roll.faces + roll.faces)
            by (nonlinear_arith)
            requires
                roll.repetitions == rest.repetitions + 1,
        ;
    } else {
        assert(roll.repetitions * roll.faces == 0) by (nonlinear_arith)
            requires
                roll.repetitions == 0,
        ;
    }
}

/// A sum of the dice of a roll lies between the number of dice and the number
/// of dice times the number of faces, and there is one whenever the largest
/// sum that the dice can show fits in a `u64`.
pub proof fn lemma_sum_bounds(roll: RollModel, sum: Option<u64>)
    requires
        is_sum_of(roll, sum),
    ensures
        roll.repetitions * roll.faces <= u64::MAX ==> sum is Some,
        sum matches Some(value) ==> roll.repetitions <= value <= roll.repetitions * roll.faces,
{
    let samples = choose|samples: Seq<u64>| #[trigger]
        is_outcome(roll, samples) && sum == checked_total(samples);
    lemma_total_bounds(roll, samples);
}

/// Draws a number with `rand`: `thread_rng` hands out the generator of the
/// calling thread, and `Rng::gen_range` on the inclusive range `1..=faces`
/// returns a value of that range. `gen_range` panics on an empty range, which
/// `faces >= 1` rules out. Nothing is said of which value is drawn, nor that
/// two draws agree.
#[verifier::external_body]
fn sample_face(faces: u64) -> (value: u64)
    requires
        faces >= 1,
    ensures
        1 <= value <= faces,
{
    rand::thread_rng().gen_range(1..=faces)
}

/// Adds one more sample to a running sum, unless the sum would leave `u64`.
pub fn accumulate(sum: u64, sample: u64) -> (r: Option<u64>)
    ensures
        r == (if sum + sample <= u64::MAX {
            Some((sum + sample) as u64)
        } else {
            None
        }),
{
    sum.checked_add(sample)
}

impl DiceRoll {
    /// Rolls one die.
    pub fn roll_once(&self) -> (value: u64)
        ensures
            1 <= value <= self@.faces,
    {
        sample_face(self.faces())
    }

    /// Rolls all the dice and returns their sum. The sum is `None` only where
    /// it does not fit in a `u64`, which cannot happen as long as the largest
    /// possible sum fits.
    pub fn roll_sum(&self) -> (r: Option<u64>)
        ensures
            is_sum_of(self@, r),
            self@.repetitions * self@.faces <= u64::MAX ==> r is Some,
            r matches Some(sum) ==> self@.repetitions <= sum <= self@.repetitions * self@.faces,
    {
        let repetitions = self.repetitions();
        let faces = self.faces();
        let ghost mut samples: Seq<u64> = Seq::empty();
        let mut sum: u64 = 0;
        let mut rolled: u64 = 0;
        while rolled < repetitions
            invariant
                rolled <= repetitions,
                repetitions as nat == self@.repetitions,
                faces as nat == self@.faces,
                faces >= 1,
                samples.len() == rolled,
                forall|i: int| 0 <= i < samples.len() ==> 1 <= (#[trigger] samples[i]) <= faces,
                sum as nat == total(samples),
            decreases repetitions - rolled,
        {
            let value = sample_face(faces);
            let ghost seen = samples.push(value);
            assert(seen.drop_last() =~= samples);
            match accumulate(sum, value) {
                Some(next) => {
                    sum = next;
                },
                None => {
                    proof {
                        let ones = Seq::new((repetitions - rolled - 1) as nat, |i: int| 1u64);
                        let all = seen + ones;
                        lemma_total_concat(seen, ones);
                        assert(is_outcome(self@, all));
                        lemma_sum_bounds(self@, None);
                    }
                    return None;
                },
            }
            proof {
                samples = seen;
            }
            rolled += 1;
        }
        proof {
            assert(is_outcome(self@, samples));
            lemma_sum_bounds(self@, Some(sum));
        }
        Some(sum)
    }

    /// Starts rolling the dice one at a time: all of them are still to be
    /// rolled.
    pub fn run(&self) -> (run: RollRun)
        ensures
            run@ == self@,
    {
        RollRun { faces: self.faces(), remaining: self.repetitions() }
    }
}

/// A roll in progress: the dice that are still to be rolled, one at a time.
#[derive(Debug)]
pub struct RollRun {
    faces: u64,
    remaining: u64,
}

impl View for RollRun {
    type V = RollModel;

    /// The roll that is left: the dice not rolled yet, with their faces.
    closed spec fn view(&self) -> RollModel {
        RollModel { repetitions: self.remaining as nat, faces: self.faces as nat }
    }
}

impl RollRun {
    #[verifier::type_invariant]
    spec fn has_a_face(self) -> bool {
        self.faces >= 1
    }

    /// How many dice are still to be rolled.
    pub fn remaining(&self) -> (n: u64)
        ensures
            n as nat == self@.repetitions,
    {
        self.remaining
    }

    /// Rolls the next die, if one is left, and returns what it shows. Once
    /// every die is rolled there is nothing more to return, and the run stays
    /// as it is.
    pub fn next_roll(&mut self) -> (r: Option<u64>)
        ensures
            final(self)@.faces == old(self)@.faces,
            match r {
                Some(value) => {
                    &&& old(self)@.repetitions > 0
                    &&& final(self)@.repetitions == old(self)@.repetitions - 1
                    &&& 1 <= value <= old(self)@.faces
                },
                None => old(self)@.repetitions == 0 && final(self)@.repetitions == 0,
            },
    {
        proof {
            use_type_invariant(&*self);
        }
        if self.remaining == 0 {
            None
        } else {
            let value = sample_face(self.faces);
            self.remaining = self.remaining - 1;
            Some(value)
        }
    }
}

} // verus!
