//! The command line of the benchmark reference generator.

use vstd::prelude::*;
use crate::benchmark::BenchmarkConfig;
use crate::text::push_str;

verus! {

/// Why a decimal number could not be read, as std's integer parsing reports it.
#[derive(Debug, Clone, Copy, PartialEq, Eq, Structural)]
pub enum NumberError {
    Empty,
    InvalidDigit,
    PosOverflow,
}

/// The value of an ASCII decimal digit.
pub open spec fn digit_value(c: char) -> Option<nat> {
    if '0' <= c && c <= '9' {
        Some((c as nat - '0' as nat) as nat)
    } else {
        None
    }
}

/// Reads the digits `s[i..]` onto the value `acc` read so far: the first
/// character that is not a digit, or the first digit that takes the value
/// past `usize::MAX`, decides the error.
pub open spec fn read_digits(s: Seq<char>, i: nat, acc: nat) -> Result<usize, NumberError>
    decreases s.len() - i,
{
    if i >= s.len() {
        Ok(acc as usize)
    } else {
        match digit_value(s[i as int]) {
            None => Err(NumberError::InvalidDigit),
            Some(d) => if acc * 10 + d > usize::MAX {
                Err(NumberError::PosOverflow)
            } else {
                read_digits(s, i + 1, acc * 10 + d)
            },
        }
    }
}

/// How std reads an unsigned decimal number: not empty, an optional leading
/// `+` that must be followed by something, then digits only.
pub open spec fn spec_parse_usize(s: Seq<char>) -> Result<usize, NumberError> {
    if s.len() == 0 {
        Err(NumberError::Empty)
    } else if s[0] == '+' {
        if s.len() == 1 {
            Err(NumberError::InvalidDigit)
        } else {
            read_digits(s, 1, 0)
        }
    } else {
        read_digits(s, 0, 0)
    }
}

/// Reads an unsigned decimal number.
pub fn parse_usize(s: &str) -> (r: Result<usize, NumberError>)
    ensures
        r == spec_parse_usize(s@),
{
    let chars = crate::render::collect_chars(s);
    let n = chars.len();
    if n == 0 {
        return Err(NumberError::Empty);
    }
    let mut i: usize = 0;
    if chars[0] == '+' {
        if n == 1 {
            return Err(NumberError::InvalidDigit);
        }
        i = 1;
    }
    let ghost start = i;
    let mut acc: usize = 0;
    while i < n
        invariant
            n == chars@.len(),
            chars@ == s@,
            start <= i <= n,
            start == 0 || start == 1,
            n > 0,
            spec_parse_usize(s@) == read_digits(s@, i as nat, acc as nat),
        decreases n - i,
    {
        let c = chars[i];
        if c < '0' || c > '9' {
            return Err(NumberError::InvalidDigit);
        }
        let d: usize = (c as u32 - '0' as u32) as usize;
        assert(digit_value(c) == Some(d as nat));
        if acc > (usize::MAX - d) / 10 {
            assert(acc * 10 + d > usize::MAX) by (nonlinear_arith)
                requires
                    acc > (usize::MAX - d) / 10,
                    d <= 9,
            ;
            return Err(NumberError::PosOverflow);
        }
        assert(acc * 10 + d <= usize::MAX) by (nonlinear_arith)
            requires
                acc <= (usize::MAX - d) / 10,
                d <= 9,
        ;
        acc = acc * 10 + d;
        i = i + 1;
    }
    Ok(acc)
}

/// A command line of the reference generator that could not be used.
#[derive(Debug, PartialEq, Eq)]
pub enum ReferenceArgsError {
    MissingOutputPath,
    MissingIterations,
    MissingWarmup,
    InvalidNumber(NumberError),
    UnknownArgument(String),
}

/// The options of the reference generator.
#[derive(Debug)]
pub struct ReferenceOptions {
    /// Where to write the artifact; `None` keeps the default location.
    pub output: Option<String>,
    pub config: BenchmarkConfig,
}

/// A refused command line, as plain values.
pub enum SpecArgsError {
    MissingOutputPath,
    MissingIterations,
    MissingWarmup,
    InvalidNumber(NumberError),
    UnknownArgument(Seq<char>),
}

/// The options, as plain values.
pub struct SpecOptions {
    pub output: Option<Seq<char>>,
    pub warmup: usize,
    pub iterations: usize,
}

/// Reads the arguments from position `i` on, over the options read so far:
/// `--output PATH`, `--iterations N` and `--warmup N`, in any order, a later
/// one overriding an earlier one; anything else is an error, as is a flag
/// without its value or a value that is not a number.
pub open spec fn read_reference_args(args: Seq<Seq<char>>, i: nat, acc: SpecOptions) -> Result<
    SpecOptions,
    SpecArgsError,
>
    decreases args.len() - i,
{
    if i >= args.len() {
        Ok(acc)
    } else if args[i as int] == "--output"@ {
        if i + 1 >= args.len() {
            Err(SpecArgsError::MissingOutputPath)
        } else {
            read_reference_args(
                args,
                i + 2,
                SpecOptions { output: Some(args[(i + 1) as int]), ..acc },
            )
        }
    } else if args[i as int] == "--iterations"@ {
        if i + 1 >= args.len() {
            Err(SpecArgsError::MissingIterations)
        } else {
            match spec_parse_usize(args[(i + 1) as int]) {
                Ok(v) => read_reference_args(args, i + 2, SpecOptions { iterations: v, ..acc }),
                Err(e) => Err(SpecArgsError::InvalidNumber(e)),
            }
        }
    } else if args[i as int] == "--warmup"@ {
        if i + 1 >= args.len() {
            Err(SpecArgsError::MissingWarmup)
        } else {
            match spec_parse_usize(args[(i + 1) as int]) {
                Ok(v) => read_reference_args(args, i + 2, SpecOptions { warmup: v, ..acc }),
                Err(e) => Err(SpecArgsError::InvalidNumber(e)),
            }
        }
    } else {
        Err(SpecArgsError::UnknownArgument(args[i as int]))
    }
}

/// The arguments as plain text.
pub open spec fn args_view(args: Seq<String>) -> Seq<Seq<char>> {
    args.map_values(|a: String| a@)
}

/// The options of the reference generator, read from its arguments (the
/// program name not included), starting from the default configuration.
pub fn parse_reference_args(args: &Vec<String>) -> (r: Result<ReferenceOptions, ReferenceArgsError>)
    ensures
        ({
            let spec = read_reference_args(
                args_view(args@),
                0,
                SpecOptions { output: None, warmup: 1, iterations: 6 },
            );
            match r {
                Ok(o) => spec matches Ok(so) && so.warmup == o.config.warmup_iterations
                    && so.iterations == o.config.measurement_iterations && (match o.output {
                    Some(p) => so.output == Some(p@),
                    None => so.output is None,
                }),
                Err(e) => spec matches Err(se) && error_matches(e, se),
            }
        }),
{
    let mut output: Option<String> = None;
    let mut config = BenchmarkConfig::default();
    let ghost view = args_view(args@);
    let mut i: usize = 0;
    proof {
        reveal_strlit("--output");
        reveal_strlit("--iterations");
        reveal_strlit("--warmup");
    }
    while i < args.len()
        invariant
            i <= args@.len(),
            view == args_view(args@),
            read_reference_args(view, 0, SpecOptions { output: None, warmup: 1, iterations: 6 })
                == read_reference_args(
                view,
                i as nat,
                SpecOptions {
                    output: match output {
                        Some(p) => Some(p@),
                        None => None,
                    },
                    warmup: config.warmup_iterations,
                    iterations: config.measurement_iterations,
                },
            ),
        decreases args@.len() - i,
    {
        let arg = &args[i];
        assert(view[i as int] == arg@);
        if str_eq(arg.as_str(), "--output") {
            if i + 1 >= args.len() {
                return Err(ReferenceArgsError::MissingOutputPath);
            }
            output = Some(args[i + 1].clone());
            assert(view[i + 1] == args@[i + 1]@);
            i = i + 2;
        } else if str_eq(arg.as_str(), "--iterations") {
            if i + 1 >= args.len() {
                return Err(ReferenceArgsError::MissingIterations);
            }
            assert(view[i + 1] == args@[i + 1]@);
            match parse_usize(args[i + 1].as_str()) {
                Ok(v) => config.measurement_iterations = v,
                Err(e) => return Err(ReferenceArgsError::InvalidNumber(e)),
            }
            i = i + 2;
        } else if str_eq(arg.as_str(), "--warmup") {
            if i + 1 >= args.len() {
                return Err(ReferenceArgsError::MissingWarmup);
            }
            assert(view[i + 1] == args@[i + 1]@);
            match parse_usize(args[i + 1].as_str()) {
                Ok(v) => config.warmup_iterations = v,
                Err(e) => return Err(ReferenceArgsError::InvalidNumber(e)),
            }
            i = i + 2;
        } else {
            return Err(ReferenceArgsError::UnknownArgument(arg.clone()));
        }
    }
    Ok(ReferenceOptions { output, config })
}

/// An error value and its plain-text form name the same failure.
pub open spec fn error_matches(e: ReferenceArgsError, se: SpecArgsError) -> bool {
    match (e, se) {
        (ReferenceArgsError::MissingOutputPath, SpecArgsError::MissingOutputPath) => true,
        (ReferenceArgsError::MissingIterations, SpecArgsError::MissingIterations) => true,
        (ReferenceArgsError::MissingWarmup, SpecArgsError::MissingWarmup) => true,
        (ReferenceArgsError::InvalidNumber(a), SpecArgsError::InvalidNumber(b)) => a == b,
        (ReferenceArgsError::UnknownArgument(a), SpecArgsError::UnknownArgument(b)) => a@ == b,
        _ => false,
    }
}

/// Two string slices hold the same characters.
pub fn str_eq(a: &str, b: &str) -> (r: bool)
    ensures
        r == (a@ == b@),
{
    let x = crate::render::collect_chars(a);
    let y = crate::render::collect_chars(b);
    if x.len() != y.len() {
        return false;
    }
    let mut i: usize = 0;
    while i < x.len()
        invariant
            x@ == a@,
            y@ == b@,
            x@.len() == y@.len(),
            i <= x@.len(),
            forall|k: int| 0 <= k < i ==> x@[k] == y@[k],
        decreases x@.len() - i,
    {
        if x[i] != y[i] {
            return false;
        }
        i = i + 1;
    }
    assert(x@ =~= y@);
    true
}

/// The text of an error: the generator's own words, std's words for a bad number.
pub open spec fn spec_message(e: ReferenceArgsError) -> Seq<char> {
    match e {
        ReferenceArgsError::MissingOutputPath => "missing path after --output"@,
        ReferenceArgsError::MissingIterations => "missing value after --iterations"@,
        ReferenceArgsError::MissingWarmup => "missing value after --warmup"@,
        ReferenceArgsError::InvalidNumber(NumberError::Empty) => "cannot parse integer from empty string"@,
        ReferenceArgsError::InvalidNumber(NumberError::InvalidDigit) => "invalid digit found in string"@,
        ReferenceArgsError::InvalidNumber(NumberError::PosOverflow) => "number too large to fit in target type"@,
        ReferenceArgsError::UnknownArgument(arg) => "unknown argument: "@ + arg@,
    }
}

impl ReferenceArgsError {
    /// The text shown for the error, as the generator prints it.
    pub fn message(&self) -> (s: String)
        ensures
            s@ == spec_message(*self),
    {
        let mut s = String::new();
        match self {
            ReferenceArgsError::MissingOutputPath => push_str(&mut s, "missing path after --output"),
            ReferenceArgsError::MissingIterations => push_str(
                &mut s,
                "missing value after --iterations",
            ),
            ReferenceArgsError::MissingWarmup => push_str(&mut s, "missing value after --warmup"),
            ReferenceArgsError::InvalidNumber(NumberError::Empty) => push_str(
                &mut s,
                "cannot parse integer from empty string",
            ),
            ReferenceArgsError::InvalidNumber(NumberError::InvalidDigit) => push_str(
                &mut s,
                "invalid digit found in string",
            ),
            ReferenceArgsError::InvalidNumber(NumberError::PosOverflow) => push_str(
                &mut s,
                "number too large to fit in target type",
            ),
            ReferenceArgsError::UnknownArgument(arg) => {
                push_str(&mut s, "unknown argument: ");
                push_str(&mut s, arg.as_str());
            },
        }
        assert(s@ =~= spec_message(*self));
        s
    }
}

} // verus!
