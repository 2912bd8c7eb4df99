//! The built-in functions: their names, the argument counts they accept, and
//! what each call asks of the outside world.
use vstd::prelude::*;

use rand::Rng;

use crate::error::Error;
use crate::text::{decimal, push_decimal};

verus! {

/// A built-in function.
#[derive(Debug, Clone, Copy, PartialEq, Eq, Structural)]
pub enum Intrinsic {
    NumPrintLn,
    NumPrint,
    /// Prints a number in decimal, followed by a newline.
    Print,
    PrintChar,
    Exit,
    Random,
    RandomRange,
    Present,
    DrawColor,
    Pixel,
    FillRect,
    Line,
    KeyPressed,
    Clear,
    Delay,
    PollExit,
    CreateMonoSprite,
    Sprite,
}

/// A drawing or timing request for the graphics collaborator; the call's value is `0`.
#[derive(Debug, Clone, Copy, PartialEq, Eq, Structural)]
pub enum GraphicsCall {
    Present,
    /// A packed RGBA8888 color.
    DrawColor(u32),
    Pixel(u32, u32),
    FillRect(u32, u32, u32, u32),
    Line(u32, u32, u32, u32),
    Clear,
    /// Blocks for this many milliseconds.
    Delay(u32),
    /// Ends the process when the window was closed.
    PollExit,
    /// Sprite index, x, y.
    Sprite(u32, u32, u32),
}

/// What a call of an intrinsic amounts to.
#[derive(Debug, PartialEq, Eq)]
pub enum Effect {
    /// The call's value, computed here.
    Value(u32),
    /// Text to write to standard output; the call's value is `0`.
    Output(Vec<char>),
    /// A graphics request; the call's value is `0`.
    Graphics(GraphicsCall),
    /// Asks whether the key with this scan code is held; the value is `1` or `0`.
    KeyPressed(u32),
    /// Registers a one-bit-per-pixel sprite; the value is the sprite's index.
    CreateMonoSprite { data: Vec<u8>, width: u32, height: u32, color: u32 },
    /// Ends the process.
    Exit,
}

/// The intrinsic called `n`, if there is one.
pub open spec fn intrinsic_named(n: Seq<char>) -> Option<Intrinsic> {
    if n == "numprintln"@ {
        Some(Intrinsic::NumPrintLn)
    } else if n == "numprint"@ {
        Some(Intrinsic::NumPrint)
    } else if n == "print"@ {
        Some(Intrinsic::Print)
    } else if n == "printchar"@ {
        Some(Intrinsic::PrintChar)
    } else if n == "exit"@ {
        Some(Intrinsic::Exit)
    } else if n == "random"@ {
        Some(Intrinsic::Random)
    } else if n == "randomrange"@ {
        Some(Intrinsic::RandomRange)
    } else if n == "present"@ {
        Some(Intrinsic::Present)
    } else if n == "drawcolor"@ {
        Some(Intrinsic::DrawColor)
    } else if n == "pixel"@ {
        Some(Intrinsic::Pixel)
    } else if n == "fillrect"@ {
        Some(Intrinsic::FillRect)
    } else if n == "line"@ {
        Some(Intrinsic::Line)
    } else if n == "keypressed"@ {
        Some(Intrinsic::KeyPressed)
    } else if n == "clear"@ {
        Some(Intrinsic::Clear)
    } else if n == "delay"@ {
        Some(Intrinsic::Delay)
    } else if n == "pollexit"@ {
        Some(Intrinsic::PollExit)
    } else if n == "createmonosprite"@ {
        Some(Intrinsic::CreateMonoSprite)
    } else if n == "sprite"@ {
        Some(Intrinsic::Sprite)
    } else {
        None
    }
}

/// The argument counts each intrinsic accepts; `None` when it accepts any count.
pub open spec fn expected_counts(k: Intrinsic) -> Option<Seq<usize>> {
    match k {
        Intrinsic::NumPrintLn | Intrinsic::NumPrint => None,
        Intrinsic::Print | Intrinsic::PrintChar | Intrinsic::DrawColor
        | Intrinsic::KeyPressed | Intrinsic::Delay => Some(seq![1usize]),
        Intrinsic::Exit | Intrinsic::Random | Intrinsic::Present | Intrinsic::Clear
        | Intrinsic::PollExit => Some(seq![0usize]),
        Intrinsic::RandomRange | Intrinsic::Pixel => Some(seq![2usize]),
        Intrinsic::Sprite => Some(seq![3usize]),
        Intrinsic::FillRect | Intrinsic::Line | Intrinsic::CreateMonoSprite => Some(seq![4usize]),
    }
}

/// Whether `n` arguments are accepted under `counts`.
pub open spec fn count_accepted(counts: Option<Seq<usize>>, n: nat) -> bool {
    match counts {
        None => true,
        Some(c) => holds(c, n),
    }
}

/// `n` is one of `c`.
pub open spec fn holds(c: Seq<usize>, n: nat) -> bool {
    exists|i: int| 0 <= i < c.len() && #[trigger] c[i] as int == n as int
}

/// Finds the intrinsic called `name`.
pub fn lookup_intrinsic(name: &String) -> (r: Option<Intrinsic>)
    ensures
        r == intrinsic_named(name@),
{
    if *name == String::from_str("numprintln") {
        Some(Intrinsic::NumPrintLn)
    } else if *name == String::from_str("numprint") {
        Some(Intrinsic::NumPrint)
    } else if *name == String::from_str("print") {
        Some(Intrinsic::Print)
    } else if *name == String::from_str("printchar") {
        Some(Intrinsic::PrintChar)
    } else if *name == String::from_str("exit") {
        Some(Intrinsic::Exit)
    } else if *name == String::from_str("random") {
        Some(Intrinsic::Random)
    } else if *name == String::from_str("randomrange") {
        Some(Intrinsic::RandomRange)
    } else if *name == String::from_str("present") {
        Some(Intrinsic::Present)
    } else if *name == String::from_str("drawcolor") {
        Some(Intrinsic::DrawColor)
    } else if *name == String::from_str("pixel") {
        Some(Intrinsic::Pixel)
    } else if *name == String::from_str("fillrect") {
        Some(Intrinsic::FillRect)
    } else if *name == String::from_str("line") {
        Some(Intrinsic::Line)
    } else if *name == String::from_str("keypressed") {
        Some(Intrinsic::KeyPressed)
    } else if *name == String::from_str("clear") {
        Some(Intrinsic::Clear)
    } else if *name == String::from_str("delay") {
        Some(Intrinsic::Delay)
    } else if *name == String::from_str("pollexit") {
        Some(Intrinsic::PollExit)
    } else if *name == String::from_str("createmonosprite") {
        Some(Intrinsic::CreateMonoSprite)
    } else if *name == String::from_str("sprite") {
        Some(Intrinsic::Sprite)
    } else {
        None
    }
}

impl Intrinsic {
    /// The argument counts this intrinsic accepts; `None` when it accepts any count.
    pub fn expected_counts(&self) -> (r: Option<Vec<usize>>)
        ensures
            match r {
                None => expected_counts(*self) is None,
                Some(v) => expected_counts(*self) == Some(v@),
            },
    {
        let n: usize = match self {
            Intrinsic::NumPrintLn | Intrinsic::NumPrint => {
                return None;
            },
            Intrinsic::Print | Intrinsic::PrintChar | Intrinsic::DrawColor
            | Intrinsic::KeyPressed | Intrinsic::Delay => 1,
            Intrinsic::Exit | Intrinsic::Random | Intrinsic::Present | Intrinsic::Clear
            | Intrinsic::PollExit => 0,
            Intrinsic::RandomRange | Intrinsic::Pixel => 2,
            Intrinsic::Sprite => 3,
            Intrinsic::FillRect | Intrinsic::Line | Intrinsic::CreateMonoSprite => 4,
        };
        let v = vec![n];
        proof {
            assert(v@ =~= seq![n]);
        }
        Some(v)
    }
}

/// Whether `counts` holds `n`.
fn holds_count(counts: &Vec<usize>, n: usize) -> (r: bool)
    ensures
        r == holds(counts@, n as nat),
{
    let mut i: usize = 0;
    while i < counts.len()
        invariant
            i <= counts@.len(),
            forall|k: int| 0 <= k < i ==> counts@[k] != n,
        decreases counts@.len() - i,
    {
        if counts[i] == n {
            proof {
                assert(counts@[i as int] as int == n as int);
            }
            return true;
        }
        i = i + 1;
    }
    false
}

/// Whether `v` is a Unicode scalar value, which is what a `char` holds.
pub open spec fn is_char_value(v: u32) -> bool {
    v <= 0x10FFFF && !(0xD800 <= v <= 0xDFFF)
}

/// The numbers in decimal, one after another with nothing between them.
pub open spec fn numbers_text(args: Seq<u32>) -> Seq<char>
    decreases args.len(),
{
    if args.len() == 0 {
        Seq::empty()
    } else {
        numbers_text(args.drop_last()) + decimal(args.last() as nat)
    }
}

/// The numbers in decimal, each followed by a newline.
pub open spec fn number_lines(args: Seq<u32>) -> Seq<char>
    decreases args.len(),
{
    if args.len() == 0 {
        Seq::empty()
    } else {
        number_lines(args.drop_last()) + decimal(args.last() as nat) + seq!['\n']
    }
}

/// One past the last index of sprite data that starts at `start` and has `height` rows
/// of `width / 8` bytes.
pub open spec fn sprite_data_end(start: u32, width: u32, height: u32) -> nat {
    (start + (width / 8) * height) as nat
}

/// What the intrinsic `k` called with `args` (as many as it accepts) over memory
/// `mem` gives, for each outcome `r`.
pub open spec fn intrinsic_outcome(k: Intrinsic, args: Seq<u32>, mem: Seq<u8>, r: Result<Effect, Error>) -> bool {
    match k {
        Intrinsic::NumPrintLn => r matches Ok(Effect::Output(t)) && t@ == (if args.len() == 0 {
            seq!['\n']
        } else {
            number_lines(args)
        }),
        Intrinsic::NumPrint => r matches Ok(Effect::Output(t)) && t@ == numbers_text(args),
        Intrinsic::Print => r matches Ok(Effect::Output(t)) && t@ == number_lines(args),
        Intrinsic::PrintChar => if is_char_value(args[0]) {
            r matches Ok(Effect::Output(t)) && t@.len() == 1 && t@[0] as u32 == args[0]
        } else {
            r == Err::<Effect, Error>(Error::InvalidCharacterValue(args[0]))
        },
        Intrinsic::Exit => r == Ok::<Effect, Error>(Effect::Exit),
        Intrinsic::Random => r matches Ok(Effect::Value(_)),
        Intrinsic::RandomRange => if args[0] < args[1] {
            r matches Ok(Effect::Value(v)) && args[0] <= v < args[1]
        } else {
            r == Err::<Effect, Error>(Error::EmptyRange { low: args[0], high: args[1] })
        },
        Intrinsic::Present => r == Ok::<Effect, Error>(Effect::Graphics(GraphicsCall::Present)),
        Intrinsic::DrawColor => r == Ok::<Effect, Error>(
            Effect::Graphics(GraphicsCall::DrawColor(args[0])),
        ),
        Intrinsic::Pixel => r == Ok::<Effect, Error>(
            Effect::Graphics(GraphicsCall::Pixel(args[0], args[1])),
        ),
        Intrinsic::FillRect => r == Ok::<Effect, Error>(
            Effect::Graphics(GraphicsCall::FillRect(args[0], args[1], args[2], args[3])),
        ),
        Intrinsic::Line => r == Ok::<Effect, Error>(
            Effect::Graphics(GraphicsCall::Line(args[0], args[1], args[2], args[3])),
        ),
        Intrinsic::KeyPressed => r == Ok::<Effect, Error>(Effect::KeyPressed(args[0])),
        Intrinsic::Clear => r == Ok::<Effect, Error>(Effect::Graphics(GraphicsCall::Clear)),
        Intrinsic::Delay => r == Ok::<Effect, Error>(
            Effect::Graphics(GraphicsCall::Delay(args[0])),
        ),
        Intrinsic::PollExit => r == Ok::<Effect, Error>(Effect::Graphics(GraphicsCall::PollExit)),
        Intrinsic::CreateMonoSprite => {
            let end = sprite_data_end(args[0], args[1], args[2]);
            if end < mem.len() && (args[0] as int) < mem.len() {
                r matches Ok(Effect::CreateMonoSprite { data, width, height, color }) && data@
                    == mem.subrange(args[0] as int, end as int) && width == args[1] && height
                    == args[2] && color == args[3]
            } else {
                r == Err::<Effect, Error>(
                    Error::U8OutOfBounds {
                        u8_read_index: end as usize,
                        memory_length: mem.len() as usize,
                    },
                )
            }
        },
        Intrinsic::Sprite => r == Ok::<Effect, Error>(
            Effect::Graphics(GraphicsCall::Sprite(args[0], args[1], args[2])),
        ),
    }
}

/// Relies on `char::from_u32`: `Some` exactly for Unicode scalar values, holding
/// the character with that code point.
#[verifier::external_body]
fn char_from_u32(v: u32) -> (r: Option<char>)
    ensures
        r.is_some() <==> is_char_value(v),
        r matches Some(c) ==> c as u32 == v,
{
    char::from_u32(v)
}

/// Relies on `rand::random::<u32>`: a number drawn from the thread's generator;
/// nothing is known of its value.
#[verifier::external_body]
fn random_u32() -> u32 {
    rand::random::<u32>()
}

/// Relies on `rand::Rng::gen_range` on the thread's generator: a number in
/// `low..high`. It panics when `low >= high`.
#[verifier::external_body]
fn random_in_range(low: u32, high: u32) -> (r: u32)
    requires
        low < high,
    ensures
        low <= r < high,
{
    rand::thread_rng().gen_range(low, high)
}

/// The decimal text of each argument followed by a newline, or only a newline
/// when there are none.
fn number_lines_text(args: &Vec<u32>) -> (r: Vec<char>)
    ensures
        r@ == (if args@.len() == 0 {
            seq!['\n']
        } else {
            number_lines(args@)
        }),
{
    let mut out: Vec<char> = Vec::new();
    if args.len() == 0 {
        out.push('\n');
        return out;
    }
    let mut i: usize = 0;
    while i < args.len()
        invariant
            i <= args@.len(),
            out@ == number_lines(args@.subrange(0, i as int)),
        decreases args@.len() - i,
    {
        proof {
            assert(args@.subrange(0, i + 1).drop_last() =~= args@.subrange(0, i as int));
        }
        push_decimal(&mut out, args[i]);
        out.push('\n');
        i = i + 1;
    }
    proof {
        assert(args@.subrange(0, args@.len() as int) =~= args@);
    }
    out
}

/// The decimal text of the arguments, one after another.
fn numbers_concat_text(args: &Vec<u32>) -> (r: Vec<char>)
    ensures
        r@ == numbers_text(args@),
{
    let mut out: Vec<char> = Vec::new();
    let mut i: usize = 0;
    while i < args.len()
        invariant
            i <= args@.len(),
            out@ == numbers_text(args@.subrange(0, i as int)),
        decreases args@.len() - i,
    {
        proof {
            assert(args@.subrange(0, i + 1).drop_last() =~= args@.subrange(0, i as int));
        }
        push_decimal(&mut out, args[i]);
        i = i + 1;
    }
    proof {
        assert(args@.subrange(0, args@.len() as int) =~= args@);
    }
    out
}

/// A copy of `mem[start..end]`.
fn copy_bytes(mem: &Vec<u8>, start: usize, end: usize) -> (r: Vec<u8>)
    requires
        start <= end <= mem@.len(),
    ensures
        r@ == mem@.subrange(start as int, end as int),
{
    let mut out: Vec<u8> = Vec::new();
    let mut i: usize = start;
    while i < end
        invariant
            start <= i <= end <= mem@.len(),
            out@ == mem@.subrange(start as int, i as int),
        decreases end - i,
    {
        out.push(mem[i]);
        i = i + 1;
        proof {
            assert(out@ =~= mem@.subrange(start as int, i as int));
        }
    }
    out
}

/// Runs the intrinsic `k` on arguments of an accepted count.
fn run_intrinsic(k: Intrinsic, args: &Vec<u32>, mem: &Vec<u8>) -> (r: Result<Effect, Error>)
    requires
        count_accepted(expected_counts(k), args@.len()),
    ensures
        intrinsic_outcome(k, args@, mem@, r),
{
    match k {
        Intrinsic::NumPrintLn => Ok(Effect::Output(number_lines_text(args))),
        Intrinsic::NumPrint => Ok(Effect::Output(numbers_concat_text(args))),
        Intrinsic::Print => Ok(Effect::Output(number_lines_text(args))),
        Intrinsic::PrintChar => match char_from_u32(args[0]) {
            Some(c) => {
                let mut t: Vec<char> = Vec::new();
                t.push(c);
                Ok(Effect::Output(t))
            },
            None => Err(Error::InvalidCharacterValue(args[0])),
        },
        Intrinsic::Exit => Ok(Effect::Exit),
        Intrinsic::Random => Ok(Effect::Value(random_u32())),
        Intrinsic::RandomRange => {
            if args[0] < args[1] {
                Ok(Effect::Value(random_in_range(args[0], args[1])))
            } else {
                Err(Error::EmptyRange { low: args[0], high: args[1] })
            }
        },
        Intrinsic::Present => Ok(Effect::Graphics(GraphicsCall::Present)),
        Intrinsic::DrawColor => Ok(Effect::Graphics(GraphicsCall::DrawColor(args[0]))),
        Intrinsic::Pixel => Ok(Effect::Graphics(GraphicsCall::Pixel(args[0], args[1]))),
        Intrinsic::FillRect => Ok(
            Effect::Graphics(GraphicsCall::FillRect(args[0], args[1], args[2], args[3])),
        ),
        Intrinsic::Line => Ok(
            Effect::Graphics(GraphicsCall::Line(args[0], args[1], args[2], args[3])),
        ),
        Intrinsic::KeyPressed => Ok(Effect::KeyPressed(args[0])),
        Intrinsic::Clear => Ok(Effect::Graphics(GraphicsCall::Clear)),
        Intrinsic::Delay => Ok(Effect::Graphics(GraphicsCall::Delay(args[0]))),
        Intrinsic::PollExit => Ok(Effect::Graphics(GraphicsCall::PollExit)),
        Intrinsic::CreateMonoSprite => {
            // the width must be a multiple of 8: each byte holds eight pixels
            let w = args[1];
            let h = args[2];
            let color = args[3];
            let start = args[0] as u64;
            proof {
                let q = (w / 8) as u64;
                assert(q <= 0x2000_0000);
                assert(q * (h as u64) <= 0x2000_0000 * 0xffff_ffffu64) by (nonlinear_arith)
                    requires
                        q <= 0x2000_0000,
                        h <= 0xffff_ffffu32,
                ;
            }
            let end = start + (w / 8) as u64 * h as u64;
            let len = mem.len();
            if end >= len as u64 || start >= len as u64 {
                return Err(Error::U8OutOfBounds { u8_read_index: end as usize, memory_length: len });
            }
            let data = copy_bytes(mem, start as usize, end as usize);
            Ok(Effect::CreateMonoSprite { data, width: w, height: h, color })
        },
        Intrinsic::Sprite => Ok(Effect::Graphics(GraphicsCall::Sprite(args[0], args[1], args[2]))),
    }
}

/// Runs the intrinsic called `name`, if there is one: `None` when no intrinsic
/// has that name, an argument-count error when it does not accept
/// `args.len()` arguments (before anything else happens), and otherwise what
/// the call amounts to.
pub fn try_execute_intrinsic(name: &String, args: &Vec<u32>, memory: &Vec<u8>) -> (r: Option<
    Result<Effect, Error>,
>)
    ensures
        r.is_none() <==> intrinsic_named(name@).is_none(),
        intrinsic_named(name@) matches Some(k) ==> (if count_accepted(expected_counts(k), args@.len()) {
            intrinsic_outcome(k, args@, memory@, r.unwrap())
        } else {
            r.unwrap() matches Err(Error::IntrinsicArgumentMismatch { expected, got, func_name })
                && expected_counts(k) == Some(expected@) && got == args@.len() && func_name@
                == name@
        }),
{
    match lookup_intrinsic(name) {
        None => None,
        Some(k) => {
            match k.expected_counts() {
                Some(counts) => {
                    let ok = holds_count(&counts, args.len());
                    if !ok {
                        return Some(
                            Err(
                                Error::IntrinsicArgumentMismatch {
                                    expected: counts,
                                    got: args.len(),
                                    func_name: name.clone(),
                                },
                            ),
                        );
                    }
                },
                None => {},
            }
            Some(run_intrinsic(k, args, memory))
        },
    }
}

} // verus!
