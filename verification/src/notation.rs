//! The `NdM` notation: `N` dice with `M` faces each, written as two unsigned
//! decimal numerals with a single `d` between them.

use vstd::prelude::*;
use vstd::slice::slice_subrange;
use crate::decimal::{
    decimal_digits, lemma_digits_are_digits, lemma_parse_written, parse_unsigned, push_decimal,
    read_unsigned, NumberError,
};
use crate::text::chars_of;

verus! {

/// Why a piece of text is not a dice roll in `NdM` notation.
#[derive(Clone, Copy, Debug, PartialEq, Eq, Structural)]
pub enum FormatError {
    /// The text does not hold exactly one `d`, so it does not fall into a
    /// count and a number of faces.
    Shape,
    /// The count or the number of faces is not an unsigned 64-bit decimal
    /// numeral. The count is looked at first.
    Number(NumberError),
    /// The number of faces is zero.
    ZeroFaces,
}

impl FormatError {
    /// What `message` says of each failure.
    pub open spec fn message_text(self) -> Seq<char> {
        match self {
            FormatError::Shape => "Invalid specification format"@,
            FormatError::Number(cause) => cause.message_text(),
            FormatError::ZeroFaces => "Invalid number of faces"@,
        }
    }

    /// The failure in words, as it is shown to whoever wrote the text.
    pub fn message(&self) -> (text: String)
        ensures
            text@ == self.message_text(),
    {
        match self {
            FormatError::Shape => "Invalid specification format".to_owned(),
            FormatError::Number(cause) => cause.message(),
            FormatError::ZeroFaces => "Invalid number of faces".to_owned(),
        }
    }
}

/// What a dice roll is, apart from how it is stored.
pub struct RollModel {
    /// How many dice are rolled.
    pub repetitions: nat,
    /// How many faces each die has.
    pub faces: nat,
}

impl RollModel {
    /// A roll that a `DiceRoll` can hold: at least one face, and both numbers
    /// within `u64`.
    pub open spec fn valid(self) -> bool {
        &&& self.repetitions <= u64::MAX
        &&& 1 <= self.faces <= u64::MAX
    }
}

/// A dice roll: `repetitions` dice, each with `faces` faces. A die always has
/// at least one face.
#[derive(Clone, Copy, Debug, PartialEq, Eq, Structural)]
pub struct DiceRoll {
    repetitions: u64,
    faces: u64,
}

impl View for DiceRoll {
    type V = RollModel;

    closed spec fn view(&self) -> RollModel {
        RollModel { repetitions: self.repetitions as nat, faces: self.faces as nat }
    }
}

/// Two rolls are the same roll exactly where they roll as many dice with as
/// many faces, and neither number leaves `u64`.
pub proof fn lemma_view_is_faithful(a: DiceRoll, b: DiceRoll)
    ensures
        a@ == b@ <==> a == b,
        a@.repetitions <= u64::MAX,
        a@.faces <= u64::MAX,
{
}

/// Whether `at` is the place of the one and only `d` in `s`.
pub open spec fn sole_delimiter(s: Seq<char>, at: int) -> bool {
    &&& 0 <= at < s.len()
    &&& forall|i: int| 0 <= i < s.len() ==> ((#[trigger] s[i]) == 'd' <==> i == at)
}

/// What a piece of text means as a dice roll. The text must hold exactly one
/// `d`; what stands before it is the count, what stands after it the number
/// of faces, each an unsigned 64-bit decimal numeral; and the number of faces
/// must not be zero. Where several of these fail, the first in this order is
/// the one reported.
pub open spec fn parse_notation(s: Seq<char>) -> Result<RollModel, FormatError> {
    if !(exists|at: int| sole_delimiter(s, at)) {
        Err(FormatError::Shape)
    } else {
        let at = choose|at: int| sole_delimiter(s, at);
        match parse_unsigned(s.take(at)) {
            Err(e) => Err(FormatError::Number(e)),
            Ok(repetitions) => match parse_unsigned(s.skip(at + 1)) {
                Err(e) => Err(FormatError::Number(e)),
                Ok(faces) => if faces == 0 {
                    Err(FormatError::ZeroFaces)
                } else {
                    Ok(RollModel { repetitions: repetitions as nat, faces: faces as nat })
                },
            },
        }
    }
}

/// The canonical text of a roll: the digits of the count, a `d`, and the
/// digits of the number of faces.
pub open spec fn notation(roll: RollModel) -> Seq<char> {
    decimal_digits(roll.repetitions) + seq!['d'] + decimal_digits(roll.faces)
}

impl DiceRoll {
    #[verifier::type_invariant]
    spec fn has_a_face(self) -> bool {
        self.faces >= 1
    }

    /// A roll of `repetitions` dice with `faces` faces each. A die without
    /// faces is refused.
    pub fn new(repetitions: u64, faces: u64) -> (r: Result<DiceRoll, FormatError>)
        ensures
            match r {
                Ok(roll) => faces >= 1 && roll@ == (RollModel {
                    repetitions: repetitions as nat,
                    faces: faces as nat,
                }),
                Err(e) => faces == 0 && e == FormatError::ZeroFaces,
            },
    {
        if faces == 0 {
            Err(FormatError::ZeroFaces)
        } else {
            Ok(DiceRoll { repetitions, faces })
        }
    }

    /// The same dice, `repetitions` of them.
    pub fn with_repetitions(&self, repetitions: u64) -> (roll: DiceRoll)
        ensures
            roll@ == (RollModel { repetitions: repetitions as nat, faces: self@.faces }),
    {
        proof {
            use_type_invariant(self);
        }
        DiceRoll { repetitions, faces: self.faces }
    }

    /// How many dice are rolled.
    pub fn repetitions(&self) -> (n: u64)
        ensures
            n as nat == self@.repetitions,
    {
        self.repetitions
    }

    /// How many faces each die has: never zero.
    pub fn faces(&self) -> (n: u64)
        ensures
            n as nat == self@.faces,
            n >= 1,
    {
        proof {
            use_type_invariant(self);
        }
        self.faces
    }

    /// Reads a roll from text in `NdM` notation.
    pub fn from_str(s: &str) -> (r: Result<DiceRoll, FormatError>)
        ensures
            match r {
                Ok(roll) => parse_notation(s@) == Ok::<RollModel, FormatError>(roll@),
                Err(e) => parse_notation(s@) == Err::<RollModel, FormatError>(e),
            },
    {
        let chars = chars_of(s);
        let len = chars.len();
        let mut at: usize = 0;
        while at < len && chars[at] != 'd'
            invariant
                at <= len == chars.len(),
                forall|i: int| 0 <= i < at ==> chars@[i] != 'd',
            decreases len - at,
        {
            at += 1;
        }
        if at == len {
            assert forall|p: int| !sole_delimiter(chars@, p) by {
                if 0 <= p < chars@.len() {
                    assert(chars@[p] != 'd');
                }
            }
            return Err(FormatError::Shape);
        }
        let mut next: usize = at + 1;
        while next < len && chars[next] != 'd'
            invariant
                at < next <= len == chars.len(),
                forall|i: int| at < i < next ==> chars@[i] != 'd',
            decreases len - next,
        {
            next += 1;
        }
        if next < len {
            assert forall|p: int| !sole_delimiter(chars@, p) by {
                if sole_delimiter(chars@, p) {
                    assert(chars@[at as int] == 'd');
                    assert(chars@[next as int] == 'd');
                }
            }
            return Err(FormatError::Shape);
        }
        proof {
            assert(sole_delimiter(chars@, at as int));
            let chosen = choose|p: int| sole_delimiter(chars@, p);
            assert(chars@[at as int] == 'd');
            assert(chosen == at);
            assert(chars@.take(at as int) =~= chars@.subrange(0, at as int));
            assert(chars@.skip(at + 1) =~= chars@.subrange(at + 1, len as int));
        }
        let repetitions = match read_unsigned(slice_subrange(chars.as_slice(), 0, at)) {
            Ok(n) => n,
            Err(e) => {
                return Err(FormatError::Number(e));
            },
        };
        let faces = match read_unsigned(slice_subrange(chars.as_slice(), at + 1, len)) {
            Ok(n) => n,
            Err(e) => {
                return Err(FormatError::Number(e));
            },
        };
        DiceRoll::new(repetitions, faces)
    }

    /// The canonical text of the roll, such as `3d6`.
    pub fn to_string(&self) -> (text: String)
        ensures
            text@ == notation(self@),
    {
        let mut text = String::new();
        push_decimal(&mut text, self.repetitions);
        text.push('d');
        push_decimal(&mut text, self.faces);
        assert(text@ =~= notation(self@));
        text
    }
}

/// Reading the canonical text of a roll succeeds, and what is read is a roll
/// equal to the one that was written.
pub proof fn lemma_round_trip(roll: DiceRoll)
    requires
        roll@.faces >= 1,
    ensures
        parse_notation(notation(roll@)) == Ok::<RollModel, FormatError>(roll@),
        forall|read: DiceRoll| #[trigger] read@ == roll@ ==> read == roll,
{
    lemma_notation_round_trip(roll@);
    assert forall|read: DiceRoll| #[trigger] read@ == roll@ implies read == roll by {
        lemma_view_is_faithful(read, roll);
    }
}

/// The canonical text of a valid roll reads back as that same roll.
pub proof fn lemma_notation_round_trip(roll: RollModel)
    requires
        roll.valid(),
    ensures
        parse_notation(notation(roll)) == Ok::<RollModel, FormatError>(roll),
{
    let count = decimal_digits(roll.repetitions);
    let faces = decimal_digits(roll.faces);
    let text = notation(roll);
    let at = count.len() as int;
    lemma_digits_are_digits(roll.repetitions);
    lemma_digits_are_digits(roll.faces);
    lemma_parse_written(roll.repetitions as u64);
    lemma_parse_written(roll.faces as u64);
    assert forall|i: int| 0 <= i < text.len() implies ((#[trigger] text[i]) == 'd' <==> i == at) by {
        if i < at {
            assert(text[i] == count[i]);
        } else if i > at {
            assert(text[i] == faces[i - at - 1]);
        }
    }
    assert(sole_delimiter(text, at));
    let chosen = choose|p: int| sole_delimiter(text, p);
    assert(text[at] == 'd');
    assert(chosen == at);
    assert(text.take(at) =~= count);
    assert(text.skip(at + 1) =~= faces);
}

} // verus!
