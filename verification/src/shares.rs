//! Cutting a roll into shares that can be rolled apart from one another, and
//! putting their sums together again.

use vstd::prelude::*;
use vstd::arithmetic::div_mod::{lemma_fundamental_div_mod, lemma_mod_bound};
use crate::engine::{
    accumulate, checked_total, is_outcome, is_sum_of, lemma_total_concat, total,
};
use crate::notation::{DiceRoll, RollModel};

verus! {

/// Into how many shares a roll is cut when `parts` are asked for: as many,
/// but never none.
pub open spec fn share_count(parts: nat) -> nat {
    if parts == 0 {
        1
    } else {
        parts
    }
}

/// How many dice the share at `index` holds when `repetitions` dice are cut
/// into `parts` shares: the shares are as even as they can be, and the
/// earlier ones take the dice that are left over.
pub open spec fn share_size(repetitions: nat, parts: nat, index: nat) -> nat
    recommends
        parts > 0,
        index < parts,
{
    repetitions / parts + if index < repetitions % parts {
        1nat
    } else {
        0nat
    }
}

/// The share at `index` when `roll` is cut into `parts` shares: its part of
/// the dice, with the faces of the whole roll.
pub open spec fn share(roll: RollModel, parts: nat, index: nat) -> RollModel
    recommends
        parts > 0,
        index < parts,
{
    RollModel { repetitions: share_size(roll.repetitions, parts, index), faces: roll.faces }
}

/// How many dice the first `upto` shares hold together.
pub open spec fn dice_in_shares(repetitions: nat, parts: nat, upto: nat) -> nat
    decreases upto,
{
    if upto == 0 {
        0
    } else {
        dice_in_shares(repetitions, parts, (upto - 1) as nat) + share_size(
            repetitions,
            parts,
            (upto - 1) as nat,
        )
    }
}

/// Whether every share has a sum.
pub open spec fn all_summed(partials: Seq<Option<u64>>) -> bool {
    forall|i: int| 0 <= i < partials.len() ==> (#[trigger] partials[i]) is Some
}

/// The sums of the shares, in order; zero stands in for a missing one.
pub open spec fn sums_of(partials: Seq<Option<u64>>) -> Seq<u64> {
    Seq::new(
        partials.len(),
        |i: int|
            match partials[i] {
                Some(sum) => sum,
                None => 0,
            },
    )
}

/// The sum of all shares: there is one where every share has a sum and all
/// of them together fit in a `u64`.
pub open spec fn combined(partials: Seq<Option<u64>>) -> Option<u64> {
    if all_summed(partials) && total(sums_of(partials)) <= u64::MAX {
        Some(total(sums_of(partials)) as u64)
    } else {
        None
    }
}

proof fn lemma_dice_in_shares(repetitions: nat, parts: nat, upto: nat)
    requires
        parts > 0,
        upto <= parts,
    ensures
        dice_in_shares(repetitions, parts, upto) == upto * (repetitions / parts) + (if upto
            < repetitions % parts {
            upto
        } else {
            repetitions % parts
        }),
    decreases upto,
{
    if upto > 0 {
        let before = (upto - 1) as nat;
        lemma_dice_in_shares(repetitions, parts, before);
        let each = repetitions / parts;
        assert(upto * each == before * each + each) by (nonlinear_arith)
            requires
                upto == before + 1,
        ;
    } else {
        let each = repetitions / parts;
        assert(upto * each == 0) by (nonlinear_arith)
            requires
                upto == 0,
        ;
    }
}

/// The shares hold all the dice of the roll between them, and no others.
pub proof fn lemma_shares_hold_all_dice(repetitions: nat, parts: nat)
    requires
        parts > 0,
    ensures
        dice_in_shares(repetitions, parts, parts) == repetitions,
{
    lemma_dice_in_shares(repetitions, parts, parts);
    lemma_fundamental_div_mod(repetitions as int, parts as int);
    lemma_mod_bound(repetitions as int, parts as int);
    assert(parts * (repetitions / parts) == (parts as int) * ((repetitions as int) / (parts as int)));
}

proof fn lemma_shares_roll_together(
    roll: RollModel,
    parts: nat,
    partials: Seq<Option<u64>>,
    upto: nat,
) -> (samples: Seq<u64>)
    requires
        parts > 0,
        upto <= parts == partials.len(),
        forall|i: int| 0 <= i < parts ==> is_sum_of(share(roll, parts, i as nat), #[trigger] partials[i]),
    ensures
        samples.len() == dice_in_shares(roll.repetitions, parts, upto),
        forall|i: int| 0 <= i < samples.len() ==> 1 <= (#[trigger] samples[i]) <= roll.faces,
        all_summed(partials.take(upto as int)) ==> total(samples) == total(
            sums_of(partials).take(upto as int),
        ),
        !all_summed(partials.take(upto as int)) ==> total(samples) > u64::MAX,
    decreases upto,
{
    if upto == 0 {
        assert(sums_of(partials).take(0) =~= Seq::<u64>::empty());
        Seq::empty()
    } else {
        let before = (upto - 1) as nat;
        let earlier = lemma_shares_roll_together(roll, parts, partials, before);
        let partial = partials[before as int];
        let last = choose|last: Seq<u64>| #[trigger]
            is_outcome(share(roll, parts, before), last) && partial == checked_total(last);
        let samples = earlier + last;
        lemma_total_concat(earlier, last);
        let sums = sums_of(partials);
        assert(sums.take(upto as int).drop_last() =~= sums.take(before as int));
        assert(sums.take(upto as int).last() == sums[before as int]);
        assert(partials.take(upto as int).drop_last() =~= partials.take(before as int));
        if all_summed(partials.take(upto as int)) {
            assert forall|i: int| 0 <= i < before implies (#[trigger] partials.take(
                before as int,
            )[i]) is Some by {
                assert(partials.take(upto as int)[i] is Some);
            }
            assert(partials.take(upto as int)[before as int] is Some);
        } else if all_summed(partials.take(before as int)) {
            assert(partial is None) by {
                if partial is Some {
                    assert forall|i: int| 0 <= i < upto implies (#[trigger] partials.take(
                        upto as int,
                    )[i]) is Some by {
                        if i < before {
                            assert(partials.take(before as int)[i] is Some);
                        }
                    }
                }
            }
        }
        samples
    }
}

/// Rolling the shares of a roll apart and putting their sums together gives
/// what rolling the whole roll at once can give, into however many shares the
/// roll is cut and whatever each of them shows.
pub proof fn lemma_shares_roll_the_same(roll: RollModel, parts: nat, partials: Seq<Option<u64>>)
    requires
        parts > 0,
        partials.len() == parts,
        forall|i: int| 0 <= i < parts ==> is_sum_of(share(roll, parts, i as nat), #[trigger] partials[i]),
    ensures
        is_sum_of(roll, combined(partials)),
{
    let samples = lemma_shares_roll_together(roll, parts, partials, parts);
    lemma_shares_hold_all_dice(roll.repetitions, parts);
    assert(partials.take(parts as int) =~= partials);
    assert(sums_of(partials).take(parts as int) =~= sums_of(partials));
    assert(is_outcome(roll, samples));
    assert(combined(partials) == checked_total(samples));
}

impl DiceRoll {
    /// Cuts the roll into `parts` shares, or into one where `parts` is zero.
    /// Every share rolls dice with the same faces as the whole roll, and the
    /// dice are spread over the shares as evenly as they can be.
    pub fn split(&self, parts: usize) -> (shares: Vec<DiceRoll>)
        ensures
            shares@.len() == share_count(parts as nat),
            forall|i: int|
                0 <= i < shares@.len() ==> (#[trigger] shares@[i])@ == share(
                    self@,
                    shares@.len(),
                    i as nat,
                ),
    {
        let count: usize = if parts == 0 { 1 } else { parts };
        let repetitions = self.repetitions();
        let each: u64 = repetitions / (count as u64);
        let spare: u64 = repetitions % (count as u64);
        let mut shares: Vec<DiceRoll> = Vec::new();
        let mut index: usize = 0;
        while index < count
            invariant
                index <= count,
                count as nat == share_count(parts as nat),
                repetitions as nat == self@.repetitions,
                each as nat == self@.repetitions / (count as nat),
                spare as nat == self@.repetitions % (count as nat),
                shares@.len() == index,
                forall|i: int|
                    0 <= i < shares@.len() ==> (#[trigger] shares@[i])@ == share(
                        self@,
                        count as nat,
                        i as nat,
                    ),
            decreases count - index,
        {
            let size: u64 = if (index as u64) < spare {
                proof {
                    lemma_fundamental_div_mod(repetitions as int, count as int);
                    assert((count as int) * (each as int) >= each as int) by (nonlinear_arith)
                        requires
                            count >= 1,
                            each >= 0,
                    ;
                }
                each + 1
            } else {
                each
            };
            shares.push(self.with_repetitions(size));
            index += 1;
        }
        shares
    }
}

/// Puts the sums of the shares together.
pub fn combine(partials: &Vec<Option<u64>>) -> (r: Option<u64>)
    ensures
        r == combined(partials@),
{
    let ghost sums = sums_of(partials@);
    let mut sum: u64 = 0;
    let mut index: usize = 0;
    while index < partials.len()
        invariant
            index <= partials.len(),
            sums == sums_of(partials@),
            forall|i: int| 0 <= i < index ==> (#[trigger] partials@[i]) is Some,
            sum as nat == total(sums.take(index as int)),
        decreases partials.len() - index,
    {
        let ghost seen = sums.take(index as int);
        proof {
            assert(sums.take(index + 1).drop_last() =~= seen);
            assert(sums =~= sums.take(index + 1) + sums.skip(index + 1));
            lemma_total_concat(sums.take(index + 1), sums.skip(index + 1));
        }
        let next = match partials[index] {
            Some(partial) => accumulate(sum, partial),
            None => None,
        };
        match next {
            Some(larger) => {
                sum = larger;
            },
            None => {
                return None;
            },
        }
        index += 1;
    }
    assert(sums.take(index as int) =~= sums);
    Some(sum)
}

} // verus!
