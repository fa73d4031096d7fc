use countdown::puzzle::{ParseError, Puzzle};
use countdown::text::{chars_of, parse_number, space, split_fields, trim_range};

fn number(text: &str) -> Result<u32, ParseError> {
    let chars = chars_of(text);
    parse_number(&chars, 0, chars.len())
}

#[test]
fn reads_a_plain_puzzle() {
    let p = Puzzle::from_str("1,2,3,4,5,6=21").unwrap();
    assert_eq!(p.values(), &vec![1, 2, 3, 4, 5, 6]);
    assert_eq!(p.target(), 21);
}

#[test]
fn reads_a_puzzle_with_white_space() {
    let p = Puzzle::from_str("  100 , 75,50 ,25,\t10 , 3 =  952 \n").unwrap();
    assert_eq!(p.values(), &vec![100, 75, 50, 25, 10, 3]);
    assert_eq!(p.target(), 952);
}

#[test]
fn reads_numbers_with_a_plus_and_zeros() {
    let p = Puzzle::from_str("+1,02,3,4,5,0=+007").unwrap();
    assert_eq!(p.values(), &vec![1, 2, 3, 4, 5, 0]);
    assert_eq!(p.target(), 7);
}

#[test]
fn three_tiles_are_too_few() {
    assert_eq!(Puzzle::from_str("1,2,3=10").unwrap_err(), ParseError::WrongTileCount);
    assert_eq!(Puzzle::from_arg("1,2,3=10").unwrap_err(), "expected 6 values");
}

#[test]
fn seven_tiles_are_too_many() {
    assert_eq!(Puzzle::from_str("1,2,3,4,5,6,7=10").unwrap_err(), ParseError::WrongTileCount);
}

#[test]
fn missing_equals_is_an_error() {
    assert_eq!(Puzzle::from_str("1,2,3,4,5,6").unwrap_err(), ParseError::MissingEquals);
    assert_eq!(Puzzle::from_str("").unwrap_err(), ParseError::MissingEquals);
    assert_eq!(Puzzle::from_arg("1,2,3,4,5,6 21").unwrap_err(), "missing =");
}

#[test]
fn bad_target_is_an_error() {
    assert_eq!(Puzzle::from_str("1,2,3,4,5,6=").unwrap_err(), ParseError::EmptyNumber);
    assert_eq!(Puzzle::from_str("1,2,3,4,5,6= x").unwrap_err(), ParseError::InvalidDigit);
    assert_eq!(Puzzle::from_str("1,2,3,4,5,6=-1").unwrap_err(), ParseError::InvalidDigit);
    assert_eq!(Puzzle::from_str("1,2,3,4,5,6=7=8").unwrap_err(), ParseError::InvalidDigit);
    assert_eq!(
        Puzzle::from_str("1,2,3,4,5,6=4294967296").unwrap_err(),
        ParseError::NumberTooLarge
    );
}

#[test]
fn bad_tile_is_an_error() {
    assert_eq!(Puzzle::from_str("1,2,,4,5,6=7").unwrap_err(), ParseError::EmptyNumber);
    assert_eq!(Puzzle::from_str("1,2,3,4,5,6,=7").unwrap_err(), ParseError::EmptyNumber);
    assert_eq!(Puzzle::from_str("=7").unwrap_err(), ParseError::EmptyNumber);
    assert_eq!(Puzzle::from_str("1,2,a,4,5,6=7").unwrap_err(), ParseError::InvalidDigit);
    assert_eq!(Puzzle::from_str("1,2,3 3,4,5,6=7").unwrap_err(), ParseError::InvalidDigit);
    assert_eq!(
        Puzzle::from_str("1,2,99999999999,4,5,6=7").unwrap_err(),
        ParseError::NumberTooLarge
    );
}

#[test]
fn the_target_is_read_before_the_tiles() {
    assert_eq!(Puzzle::from_str("1,x=").unwrap_err(), ParseError::EmptyNumber);
    assert_eq!(Puzzle::from_str(",=99999999999").unwrap_err(), ParseError::NumberTooLarge);
}

#[test]
fn the_first_bad_tile_decides() {
    assert_eq!(Puzzle::from_str("1,,x=7").unwrap_err(), ParseError::EmptyNumber);
    assert_eq!(Puzzle::from_str("1,x,=7").unwrap_err(), ParseError::InvalidDigit);
}

#[test]
fn a_bad_tile_counts_before_a_wrong_count() {
    assert_eq!(Puzzle::from_str("1,2,x=7").unwrap_err(), ParseError::InvalidDigit);
}

#[test]
fn from_arg_reads_and_explains() {
    let p = Puzzle::from_arg("6,5,4,3,2,1=0").unwrap();
    assert_eq!(p.values(), &vec![6, 5, 4, 3, 2, 1]);
    assert_eq!(p.target(), 0);
    assert_eq!(
        Puzzle::from_arg("1,2,3,4,5,=7").unwrap_err(),
        "cannot parse integer from empty string"
    );
    assert_eq!(Puzzle::from_arg("1,2,3,4,5,six=7").unwrap_err(), "invalid digit found in string");
    assert_eq!(
        Puzzle::from_arg("1,2,3,4,5,6=99999999999").unwrap_err(),
        "number too large to fit in target type"
    );
}

#[test]
fn messages_of_all_errors() {
    assert_eq!(ParseError::MissingEquals.message(), "missing =");
    assert_eq!(ParseError::EmptyNumber.message(), "cannot parse integer from empty string");
    assert_eq!(ParseError::InvalidDigit.message(), "invalid digit found in string");
    assert_eq!(ParseError::NumberTooLarge.message(), "number too large to fit in target type");
    assert_eq!(ParseError::WrongTileCount.message(), "expected 6 values");
}

#[test]
fn new_wants_six_tiles() {
    assert!(Puzzle::new(vec![1, 2, 3, 4, 5, 6], 7).is_ok());
    assert_eq!(Puzzle::new(vec![1, 2, 3, 4, 5], 7).unwrap_err(), ParseError::WrongTileCount);
    assert_eq!(Puzzle::new(vec![], 7).unwrap_err(), ParseError::WrongTileCount);
    assert_eq!(
        Puzzle::new(vec![1, 2, 3, 4, 5, 6, 7], 7).unwrap_err(),
        ParseError::WrongTileCount
    );
}

#[test]
fn numbers_are_read_as_the_standard_library_reads_them() {
    let texts = [
        "", "0", "7", "42", "007", "+", "-", "+5", "-5", "++5", "+-5", "5+", "4294967295",
        "4294967296", "4294967300", "42949672950", "99999999999x", "9x9999999999", "x99999999999",
        "00000000000000000000001", "1 2", " 1", "1 ", "1_000", "0x10", "١٢٣", "12a", "a12",
        "+0", "+4294967295", "+4294967296", "429496729", "4294967294",
    ];
    for text in texts {
        let expected = match text.parse::<u32>() {
            Ok(n) => Ok(n),
            Err(e) => Err(e.to_string()),
        };
        let got = match number(text) {
            Ok(n) => Ok(n),
            Err(e) => Err(e.message()),
        };
        assert_eq!(got, expected);
    }
}

#[test]
fn white_space_is_what_the_standard_library_trims() {
    for code in 0u32..0x3100 {
        if let Some(c) = char::from_u32(code) {
            assert_eq!(space(c), c.is_whitespace());
        }
    }
    assert!(!space('a'));
    assert!(space(' '));
    assert!(space('\u{3000}'));
}

#[test]
fn trim_range_marks_what_trim_keeps() {
    let texts = ["", " ", "a", " a", "a ", "  a b  ", "\t\n x \r\n", "\u{a0}7\u{2003}", "   "];
    for text in texts {
        let chars = chars_of(text);
        let (a, b) = trim_range(&chars, 0, chars.len());
        let kept: String = chars[a..b].iter().collect();
        assert_eq!(kept, text.trim());
    }
}

#[test]
fn trim_range_stays_in_its_range() {
    let chars = chars_of("  ab  cd  ");
    assert_eq!(trim_range(&chars, 3, 8), (3, 8));
    assert_eq!(trim_range(&chars, 4, 6), (6, 6));
    assert_eq!(trim_range(&chars, 0, 4), (2, 4));
}

#[test]
fn split_fields_marks_what_split_gives() {
    let texts = ["", ",", "a", "a,b", ",a", "a,", "a,,b", " 1 , 2 ", ",,"];
    for text in texts {
        let chars = chars_of(text);
        let fields: Vec<String> = split_fields(&chars, 0, chars.len())
            .iter()
            .map(|&(a, b)| chars[a..b].iter().collect())
            .collect();
        let expected: Vec<String> = text.split(',').map(|part| part.to_string()).collect();
        assert_eq!(fields, expected);
    }
}

#[test]
fn chars_of_gives_every_character() {
    assert_eq!(chars_of("a=1"), vec!['a', '=', '1']);
    assert_eq!(chars_of(""), vec![]);
    assert_eq!(chars_of("é७"), vec!['é', '७']);
}

#[test]
fn a_copy_of_a_puzzle_is_the_same_puzzle() {
    let p = Puzzle::from_str("9,8,7,6,5,4=3").unwrap();
    let copy = p.clone();
    assert_eq!(copy.values(), p.values());
    assert_eq!(copy.target(), p.target());
}
