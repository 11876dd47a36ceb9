use diceroll::decimal::NumberError;
use diceroll::notation::{DiceRoll, FormatError};

fn roll(repetitions: u64, faces: u64) -> DiceRoll {
    DiceRoll::new(repetitions, faces).unwrap()
}

#[test]
fn parses_count_and_faces() {
    let parsed = DiceRoll::from_str("3d6").unwrap();
    assert_eq!(parsed.repetitions(), 3);
    assert_eq!(parsed.faces(), 6);
    assert_eq!(parsed, roll(3, 6));
}

#[test]
fn parses_zero_dice() {
    assert_eq!(DiceRoll::from_str("0d6"), Ok(roll(0, 6)));
}

#[test]
fn parses_leading_zeros_and_plus_signs() {
    assert_eq!(DiceRoll::from_str("007d020"), Ok(roll(7, 20)));
    assert_eq!(DiceRoll::from_str("+3d+6"), Ok(roll(3, 6)));
    assert_eq!(DiceRoll::from_str("+0d1"), Ok(roll(0, 1)));
}

#[test]
fn parses_the_largest_numbers() {
    assert_eq!(
        DiceRoll::from_str("18446744073709551615d18446744073709551615"),
        Ok(roll(u64::MAX, u64::MAX))
    );
}

#[test]
fn text_without_delimiter_is_refused() {
    assert_eq!(DiceRoll::from_str("abc"), Err(FormatError::Shape));
    assert_eq!(DiceRoll::from_str(""), Err(FormatError::Shape));
    assert_eq!(DiceRoll::from_str("36"), Err(FormatError::Shape));
    assert_eq!(DiceRoll::from_str("3D6"), Err(FormatError::Shape));
}

#[test]
fn text_with_two_delimiters_is_refused() {
    assert_eq!(DiceRoll::from_str("3d4d5"), Err(FormatError::Shape));
    assert_eq!(DiceRoll::from_str("dd"), Err(FormatError::Shape));
    assert_eq!(DiceRoll::from_str("3dd6"), Err(FormatError::Shape));
    assert_eq!(DiceRoll::from_str("xd0d"), Err(FormatError::Shape));
}

#[test]
fn zero_faces_are_refused() {
    assert_eq!(DiceRoll::from_str("3d0"), Err(FormatError::ZeroFaces));
    assert_eq!(DiceRoll::from_str("0d0"), Err(FormatError::ZeroFaces));
    assert_eq!(DiceRoll::from_str("3d000"), Err(FormatError::ZeroFaces));
    assert_eq!(DiceRoll::from_str("3d+0"), Err(FormatError::ZeroFaces));
}

#[test]
fn missing_numbers_are_refused() {
    assert_eq!(DiceRoll::from_str("d6"), Err(FormatError::Number(NumberError::Empty)));
    assert_eq!(DiceRoll::from_str("3d"), Err(FormatError::Number(NumberError::Empty)));
    assert_eq!(DiceRoll::from_str("d"), Err(FormatError::Number(NumberError::Empty)));
}

#[test]
fn characters_that_are_no_digits_are_refused() {
    let invalid = Err(FormatError::Number(NumberError::InvalidDigit));
    assert_eq!(DiceRoll::from_str("xd6"), invalid);
    assert_eq!(DiceRoll::from_str("3dx"), invalid);
    assert_eq!(DiceRoll::from_str("-1d6"), invalid);
    assert_eq!(DiceRoll::from_str("3d-6"), invalid);
    assert_eq!(DiceRoll::from_str("+d6"), invalid);
    assert_eq!(DiceRoll::from_str("3d+"), invalid);
    assert_eq!(DiceRoll::from_str("3 d6"), invalid);
    assert_eq!(DiceRoll::from_str("3d6 "), invalid);
    assert_eq!(DiceRoll::from_str("3d6\n"), invalid);
    assert_eq!(DiceRoll::from_str("3_000d6"), invalid);
    assert_eq!(DiceRoll::from_str("++3d6"), invalid);
    assert_eq!(DiceRoll::from_str("3.0d6"), invalid);
    assert_eq!(DiceRoll::from_str("\u{663}d6"), invalid);
    assert_eq!(DiceRoll::from_str("3d\u{ff16}"), invalid);
}

#[test]
fn numbers_beyond_u64_are_refused() {
    let overflow = Err(FormatError::Number(NumberError::Overflow));
    assert_eq!(DiceRoll::from_str("18446744073709551616d6"), overflow);
    assert_eq!(DiceRoll::from_str("3d18446744073709551616"), overflow);
    assert_eq!(DiceRoll::from_str("99999999999999999999999999999999d6"), overflow);
    assert_eq!(DiceRoll::from_str("3d0018446744073709551615"), Ok(roll(3, u64::MAX)));
}

#[test]
fn the_count_is_looked_at_before_the_faces() {
    assert_eq!(DiceRoll::from_str("xd"), Err(FormatError::Number(NumberError::InvalidDigit)));
    assert_eq!(DiceRoll::from_str("dx"), Err(FormatError::Number(NumberError::Empty)));
    assert_eq!(DiceRoll::from_str("xd0"), Err(FormatError::Number(NumberError::InvalidDigit)));
    assert_eq!(
        DiceRoll::from_str("18446744073709551616dx"),
        Err(FormatError::Number(NumberError::Overflow))
    );
}

#[test]
fn numbers_are_read_from_the_left() {
    assert_eq!(
        DiceRoll::from_str("99999999999999999999999999x9d6"),
        Err(FormatError::Number(NumberError::Overflow))
    );
    assert_eq!(
        DiceRoll::from_str("3dx99999999999999999999999999"),
        Err(FormatError::Number(NumberError::InvalidDigit))
    );
}

#[test]
fn a_die_without_faces_cannot_be_made() {
    assert_eq!(DiceRoll::new(3, 0), Err(FormatError::ZeroFaces));
    assert_eq!(DiceRoll::new(0, 0), Err(FormatError::ZeroFaces));
    assert!(DiceRoll::new(0, 1).is_ok());
}

#[test]
fn renders_count_d_faces() {
    assert_eq!(roll(3, 6).to_string(), "3d6");
    assert_eq!(roll(0, 1).to_string(), "0d1");
    assert_eq!(roll(100000, 6).to_string(), "100000d6");
    assert_eq!(roll(10, 100).to_string(), "10d100");
    assert_eq!(
        roll(u64::MAX, u64::MAX).to_string(),
        "18446744073709551615d18446744073709551615"
    );
}

#[test]
fn rendering_round_trips() {
    let numbers = [0u64, 1, 2, 9, 10, 11, 99, 100, 101, 12345, 1 << 32, u64::MAX - 1, u64::MAX];
    for &repetitions in numbers.iter() {
        for &faces in numbers.iter() {
            if faces == 0 {
                continue;
            }
            let written = roll(repetitions, faces);
            assert_eq!(DiceRoll::from_str(&written.to_string()), Ok(written));
        }
    }
}

#[test]
fn parsing_then_rendering_gives_the_canonical_text() {
    assert_eq!(DiceRoll::from_str("+03d006").unwrap().to_string(), "3d6");
}

#[test]
fn with_repetitions_keeps_the_faces() {
    let changed = roll(3, 6).with_repetitions(10);
    assert_eq!(changed, roll(10, 6));
    assert_eq!(roll(3, 6).with_repetitions(0), roll(0, 6));
}

#[test]
fn failures_are_put_in_words() {
    assert_eq!(FormatError::Shape.message(), "Invalid specification format");
    assert_eq!(FormatError::ZeroFaces.message(), "Invalid number of faces");
    assert_eq!(
        FormatError::Number(NumberError::Empty).message(),
        "cannot parse integer from empty string"
    );
    assert_eq!(
        FormatError::Number(NumberError::InvalidDigit).message(),
        "invalid digit found in string"
    );
    assert_eq!(
        FormatError::Number(NumberError::Overflow).message(),
        "number too large to fit in target type"
    );
    assert_eq!(NumberError::Overflow.message(), "number too large to fit in target type");
}

fn plain_reading(text: &str) -> Option<(u64, u64)> {
    let parts: Vec<&str> = text.split('d').collect();
    if parts.len() != 2 {
        return None;
    }
    let repetitions = parts[0].parse::<u64>().ok()?;
    let faces = parts[1].parse::<u64>().ok()?;
    if faces == 0 {
        return None;
    }
    Some((repetitions, faces))
}

#[test]
fn reads_what_splitting_and_parsing_reads() {
    let texts = [
        "", "d", "dd", "1d", "d1", "1d1", "3d6", "3d6d", "d3d6", "3dd6", "0d0", "0d1", "+1d+1",
        "-1d1", "1d-1", "1 d1", "1d 1", "1d1 ", " 1d1", "1D1", "abc", "adb", "12d34", "12x34",
        "007d08", "18446744073709551615d1", "18446744073709551616d1", "1d18446744073709551615",
        "1d18446744073709551616", "1e3d6", "3d6.0", "٣d٦", "3d6",
    ];
    for text in texts.iter() {
        let read = DiceRoll::from_str(text).ok().map(|roll| (roll.repetitions(), roll.faces()));
        assert_eq!(read, plain_reading(text), "reading {:?}", text);
    }
}

#[test]
fn renders_as_the_numbers_are_formatted() {
    for (repetitions, faces) in [(0u64, 1u64), (3, 6), (10, 10), (99, 100), (u64::MAX, 7)] {
        assert_eq!(roll(repetitions, faces).to_string(), format!("{}d{}", repetitions, faces));
    }
}
