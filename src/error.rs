//! The conditions that stop a program.
use vstd::prelude::*;

use crate::text::{decimal, decimal_string, hex_string, hex_upper};

verus! {

/// Why loading or running a program failed.
#[allow(inconsistent_fields)]
#[derive(Debug, PartialEq, Eq)]
pub enum Error {
    /// A failure reported by the graphics collaborator.
    Graphics(String),
    /// A failure of the host system, such as writing output.
    System(String),
    LabelNotFound(String),
    FunctionNotFound(String),
    /// A called name is a label, not a function.
    NameIsNotFunction(String),
    LabelRedefinition(String),
    U32OutOfBounds { u32_read_index: usize, memory_length: usize },
    U8OutOfBounds { u8_read_index: usize, memory_length: usize },
    /// An intrinsic was called with another number of arguments than it accepts.
    IntrinsicArgumentMismatch { expected: Vec<usize>, got: usize, func_name: String },
    ArgumentMismatch { expected: usize, got: usize, func_name: String },
    /// A value that is no Unicode scalar value was printed as a character.
    InvalidCharacterValue(u32),
    /// The right operand of `/` or `%` was zero.
    DivisionByZero,
    /// A random number was asked for from an empty range.
    EmptyRange { low: u32, high: u32 },
}

/// The counts in decimal, joined by ` or `.
pub open spec fn counts_text(counts: Seq<usize>) -> Seq<char>
    decreases counts.len(),
{
    if counts.len() == 0 {
        Seq::empty()
    } else if counts.len() == 1 {
        decimal(counts[0] as nat)
    } else {
        counts_text(counts.drop_last()) + " or "@ + decimal(counts.last() as nat)
    }
}

/// The counts in decimal, joined by ` or `.
fn counts_string(counts: &Vec<usize>) -> (r: String)
    ensures
        r@ == counts_text(counts@),
{
    let mut r = String::new();
    let mut i: usize = 0;
    while i < counts.len()
        invariant
            i <= counts@.len(),
            r@ == counts_text(counts@.subrange(0, i as int)),
        decreases counts@.len() - i,
    {
        let ghost upto = counts@.subrange(0, i + 1);
        proof {
            assert(upto.drop_last() =~= counts@.subrange(0, i as int));
        }
        if i == 0 {
            r = number(counts[i]);
            proof {
                assert(upto.len() == 1 && upto[0] == counts@[0]);
            }
        } else {
            r.append(" or ");
            r.append(number(counts[i]).as_str());
        }
        i = i + 1;
    }
    proof {
        assert(counts@.subrange(0, counts@.len() as int) =~= counts@);
    }
    r
}

/// The human-readable message for an error.
pub open spec fn message_of(e: Error) -> Seq<char> {
    match e {
        Error::Graphics(s) => "graphics error "@ + s@,
        Error::System(s) => "system error "@ + s@,
        Error::LabelNotFound(s) => "could not find label `"@ + s@ + "`"@,
        Error::FunctionNotFound(s) => "could not find function "@ + s@,
        Error::NameIsNotFunction(s) => "tried to call `"@ + s@
            + "` as a function, but it is not a function"@,
        Error::LabelRedefinition(s) => "label `"@ + s@ + "` is defined twice"@,
        Error::U32OutOfBounds { u32_read_index, memory_length } =>
            "attempted to read 32 bit number at index "@ + decimal(u32_read_index as nat)
            + ", but memory is only "@ + decimal(memory_length as nat) + " bytes long"@,
        Error::U8OutOfBounds { u8_read_index, memory_length } =>
            "attempted to read 8 bit number at index "@ + decimal(u8_read_index as nat)
            + ", but memory is only "@ + decimal(memory_length as nat) + " bytes long"@,
        Error::IntrinsicArgumentMismatch { expected, got, func_name } => "function `"@ + func_name@
            + "` expects "@ + counts_text(expected@) + " arguments but "@ + decimal(got as nat)
            + " were supplied"@,
        Error::ArgumentMismatch { expected, got, func_name } => "function `"@ + func_name@
            + "` expects "@ + decimal(expected as nat) + " arguments but "@ + decimal(got as nat)
            + " were supplied"@,
        Error::InvalidCharacterValue(c) => "invalid character value 0x"@ + hex_upper(c as nat),
        Error::DivisionByZero => "division by zero"@,
        Error::EmptyRange { low, high } => "random range "@ + decimal(low as nat) + ".."@ + decimal(
            high as nat,
        ) + " is empty"@,
    }
}

/// `prefix`, then `middle`, then `suffix`.
fn join3(prefix: &str, middle: &str, suffix: &str) -> (r: String)
    ensures
        r@ == prefix@ + middle@ + suffix@,
{
    let mut r = String::from_str(prefix);
    r.append(middle);
    r.append(suffix);
    r
}

/// `prefix`, then `rest`.
fn join2(prefix: &str, rest: &str) -> (r: String)
    ensures
        r@ == prefix@ + rest@,
{
    let mut r = String::from_str(prefix);
    r.append(rest);
    r
}

/// The text of `n` in decimal.
fn number(n: usize) -> (r: String)
    ensures
        r@ == decimal(n as nat),
{
    decimal_string(n as u64)
}

impl Error {
    /// The human-readable message for this error.
    pub fn message(&self) -> (r: String)
        ensures
            r@ == message_of(*self),
    {
        match self {
            Error::Graphics(s) => join2("graphics error ", s.as_str()),
            Error::System(s) => join2("system error ", s.as_str()),
            Error::LabelNotFound(s) => join3("could not find label `", s.as_str(), "`"),
            Error::FunctionNotFound(s) => join2("could not find function ", s.as_str()),
            Error::NameIsNotFunction(s) => join3(
                "tried to call `",
                s.as_str(),
                "` as a function, but it is not a function",
            ),
            Error::LabelRedefinition(s) => join3("label `", s.as_str(), "` is defined twice"),
            Error::U32OutOfBounds { u32_read_index, memory_length } => {
                let mut r = join3(
                    "attempted to read 32 bit number at index ",
                    number(*u32_read_index).as_str(),
                    ", but memory is only ",
                );
                r.append(number(*memory_length).as_str());
                r.append(" bytes long");
                r
            },
            Error::U8OutOfBounds { u8_read_index, memory_length } => {
                let mut r = join3(
                    "attempted to read 8 bit number at index ",
                    number(*u8_read_index).as_str(),
                    ", but memory is only ",
                );
                r.append(number(*memory_length).as_str());
                r.append(" bytes long");
                r
            },
            Error::IntrinsicArgumentMismatch { expected, got, func_name } => {
                let mut r = join3("function `", func_name.as_str(), "` expects ");
                r.append(counts_string(expected).as_str());
                r.append(" arguments but ");
                r.append(number(*got).as_str());
                r.append(" were supplied");
                r
            },
            Error::ArgumentMismatch { expected, got, func_name } => {
                let mut r = join3("function `", func_name.as_str(), "` expects ");
                r.append(number(*expected).as_str());
                r.append(" arguments but ");
                r.append(number(*got).as_str());
                r.append(" were supplied");
                r
            },
            Error::InvalidCharacterValue(c) => join2("invalid character value 0x", hex_string(*c).as_str()),
            Error::DivisionByZero => String::from_str("division by zero"),
            Error::EmptyRange { low, high } => {
                let mut r = join3(
                    "random range ",
                    decimal_string(*low as u64).as_str(),
                    "..",
                );
                r.append(decimal_string(*high as u64).as_str());
                r.append(" is empty");
                r
            },
        }
    }
}

} // verus!
