//! A puzzle: six tiles and a target.

use crate::text::{
    chars_of, fields_of, find_char, find_first, number_of, numbers_of, parse_fields, parse_number,
    split_fields, trim_range, trimmed,
};
use vstd::prelude::*;
use vstd::string::*;

verus! {

/// How many tiles a puzzle has.
pub const TILE_COUNT: usize = 6;

/// Why a text is not a puzzle.
#[derive(Clone, Copy, Debug, PartialEq, Eq, Structural)]
pub enum ParseError {
    /// The text has no `=`.
    MissingEquals,
    /// A number is empty.
    EmptyNumber,
    /// A number holds something other than digits after an optional `+`.
    InvalidDigit,
    /// A number does not fit in 32 bits.
    NumberTooLarge,
    /// The text does not name six tiles.
    WrongTileCount,
}

impl ParseError {
    /// The words that say what is wrong.
    pub open spec fn spec_message(self) -> Seq<char> {
        match self {
            ParseError::MissingEquals => "missing ="@,
            ParseError::EmptyNumber => "cannot parse integer from empty string"@,
            ParseError::InvalidDigit => "invalid digit found in string"@,
            ParseError::NumberTooLarge => "number too large to fit in target type"@,
            ParseError::WrongTileCount => "expected 6 values"@,
        }
    }

    /// Says what is wrong, in words.
    pub fn message(self) -> (words: String)
        ensures
            words@ == self.spec_message(),
    {
        match self {
            ParseError::MissingEquals => String::from_str("missing ="),
            ParseError::EmptyNumber => String::from_str("cannot parse integer from empty string"),
            ParseError::InvalidDigit => String::from_str("invalid digit found in string"),
            ParseError::NumberTooLarge => String::from_str(
                "number too large to fit in target type",
            ),
            ParseError::WrongTileCount => String::from_str("expected 6 values"),
        }
    }
}

/// What the text of a puzzle stands for: six numbers between commas, an `=`,
/// and the target, each with or without white space around it.
///
/// The text is cut at its first `=`. What follows is read first, as the
/// target; then the fields before it, from the left, as the tiles; and at
/// last the tiles are counted. The first of these that fails decides the
/// error.
pub open spec fn parsed(text: Seq<char>) -> Result<(Seq<u32>, u32), ParseError> {
    let cut = find_char(text, '=', 0);
    if cut >= text.len() {
        Err(ParseError::MissingEquals)
    } else {
        match number_of(trimmed(text.subrange(cut + 1, text.len() as int))) {
            Err(e) => Err(e),
            Ok(target) => match numbers_of(fields_of(text.subrange(0, cut))) {
                Err(e) => Err(e),
                Ok(values) => if values.len() == TILE_COUNT {
                    Ok((values, target))
                } else {
                    Err(ParseError::WrongTileCount)
                },
            },
        }
    }
}

/// Six tiles and the target that they are to be combined to.
#[derive(Debug)]
pub struct Puzzle {
    target: u32,
    values: Vec<u32>,
}

impl Clone for Puzzle {
    fn clone(&self) -> (copy: Puzzle)
        ensures
            copy.spec_values() == self.spec_values(),
            copy.spec_target() == self.spec_target(),
    {
        proof {
            use_type_invariant(self);
        }
        let mut values: Vec<u32> = Vec::new();
        let mut k: usize = 0;
        while k < self.values.len()
            invariant
                k <= self.values@.len(),
                values@ == self.values@.take(k as int),
            decreases self.values.len() - k,
        {
            values.push(self.values[k]);
            assert(values@ =~= self.values@.take(k + 1));
            k += 1;
        }
        assert(self.values@.take(self.values@.len() as int) =~= self.values@);
        Puzzle { target: self.target, values }
    }
}

impl Puzzle {
    #[verifier::type_invariant]
    spec fn six_tiles(&self) -> bool {
        self.values@.len() == TILE_COUNT
    }

    /// The target of the puzzle.
    pub closed spec fn spec_target(&self) -> u32 {
        self.target
    }

    /// The tiles of the puzzle, in the order in which they were given.
    pub closed spec fn spec_values(&self) -> Seq<u32> {
        self.values@
    }

    /// Makes a puzzle of six tiles and a target. Any other number of tiles is
    /// refused.
    pub fn new(values: Vec<u32>, target: u32) -> (made: Result<Puzzle, ParseError>)
        ensures
            made is Ok <==> values@.len() == TILE_COUNT,
            made matches Ok(p) ==> p.spec_values() == values@ && p.spec_target() == target,
            made matches Err(e) ==> e == ParseError::WrongTileCount,
    {
        if values.len() == TILE_COUNT {
            Ok(Puzzle { target, values })
        } else {
            Err(ParseError::WrongTileCount)
        }
    }

    /// Reads a puzzle from a text such as `1, 2, 3, 4, 5, 6 = 21`.
    pub fn from_str(s: &str) -> (read: Result<Puzzle, ParseError>)
        ensures
            read matches Ok(p) ==> parsed(s@) == Ok::<(Seq<u32>, u32), ParseError>(
                (p.spec_values(), p.spec_target()),
            ),
            read matches Err(e) ==> parsed(s@) == Err::<(Seq<u32>, u32), ParseError>(e),
    {
        let chars: Vec<char> = chars_of(s);
        let n: usize = chars.len();
        let cut: usize = find_first(&chars, '=');
        if cut >= n {
            return Err(ParseError::MissingEquals);
        }
        let kept: (usize, usize) = trim_range(&chars, cut + 1, n);
        let target: u32 = match parse_number(&chars, kept.0, kept.1) {
            Ok(v) => v,
            Err(e) => {
                return Err(e);
            },
        };
        let ranges: Vec<(usize, usize)> = split_fields(&chars, 0, cut);
        let values: Vec<u32> = match parse_fields(&chars, &ranges) {
            Ok(v) => v,
            Err(e) => {
                return Err(e);
            },
        };
        Puzzle::new(values, target)
    }

    /// Reads a puzzle from a text, and says in words what is wrong with a
    /// text that is none.
    pub fn from_arg(s: &str) -> (read: Result<Puzzle, String>)
        ensures
            read matches Ok(p) ==> parsed(s@) == Ok::<(Seq<u32>, u32), ParseError>(
                (p.spec_values(), p.spec_target()),
            ),
            read matches Err(words) ==> parsed(s@) is Err && words@ == parsed(
                s@,
            )->Err_0.spec_message(),
    {
        match Puzzle::from_str(s) {
            Ok(p) => Ok(p),
            Err(e) => Err(e.message()),
        }
    }

    #[verifier::when_used_as_spec(spec_target)]
    pub fn target(&self) -> (target: u32)
        ensures
            target == self.spec_target(),
    {
        self.target
    }

    pub fn values(&self) -> (values: &Vec<u32>)
        ensures
            values@ == self.spec_values(),
            values@.len() == TILE_COUNT,
    {
        proof {
            use_type_invariant(self);
        }
        &self.values
    }
}

} // verus!
