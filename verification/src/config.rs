use vstd::prelude::*;

use crate::types::RenderStyle;

verus! {

/// The build steps per tick when none are given.
pub const DEFAULT_BUILD_STEPS: usize = 5;

/// The solve steps per tick when none are given.
pub const DEFAULT_SOLVE_STEPS: usize = 1;

/// A command-line option that takes a value.
#[derive(Clone, Copy, PartialEq, Eq, Structural, Debug)]
pub enum ArgFlag {
    BuildSleep,
    SolveSleep,
    BuildSteps,
    SolveSteps,
    Wait,
    Style,
}

/// Why a count could not be read: the three ways `usize`'s `from_str` fails.
#[derive(Clone, Copy, PartialEq, Eq, Structural, Debug)]
pub enum CountError {
    Empty,
    InvalidDigit,
    TooLarge,
}

/// What is wrong with the command line.
#[derive(Clone, PartialEq, Eq, Debug)]
pub enum ConfigError {
    /// The option is the last argument.
    MissingValue(ArgFlag),
    /// An argument that is not an option.
    UnknownArgument(String),
    /// A step count that is not a number.
    InvalidCount(ArgFlag, String, CountError),
    /// A step count of zero.
    ZeroCount(ArgFlag),
    /// A sleep or wait that is not a number of seconds.
    InvalidSeconds(ArgFlag, String),
    /// A negative sleep or wait.
    NegativeSeconds(ArgFlag),
    /// A style other than lines, blocks and half-blocks.
    InvalidStyle(String),
}

/// The option spelled `s`, if any.
pub open spec fn flag_named(s: Seq<char>) -> Option<ArgFlag> {
    if s == "--build-sleep"@ {
        Some(ArgFlag::BuildSleep)
    } else if s == "--solve-sleep"@ {
        Some(ArgFlag::SolveSleep)
    } else if s == "--build-steps"@ {
        Some(ArgFlag::BuildSteps)
    } else if s == "--solve-steps"@ {
        Some(ArgFlag::SolveSteps)
    } else if s == "--wait"@ {
        Some(ArgFlag::Wait)
    } else if s == "--style"@ {
        Some(ArgFlag::Style)
    } else {
        None
    }
}

/// How an option is spelled on the command line.
pub open spec fn flag_text(flag: ArgFlag) -> Seq<char> {
    match flag {
        ArgFlag::BuildSleep => "--build-sleep"@,
        ArgFlag::SolveSleep => "--solve-sleep"@,
        ArgFlag::BuildSteps => "--build-steps"@,
        ArgFlag::SolveSteps => "--solve-steps"@,
        ArgFlag::Wait => "--wait"@,
        ArgFlag::Style => "--style"@,
    }
}

pub fn flag_name(flag: ArgFlag) -> (s: &'static str)
    ensures
        s@ == flag_text(flag),
{
    match flag {
        ArgFlag::BuildSleep => "--build-sleep",
        ArgFlag::SolveSleep => "--solve-sleep",
        ArgFlag::BuildSteps => "--build-steps",
        ArgFlag::SolveSteps => "--solve-steps",
        ArgFlag::Wait => "--wait",
        ArgFlag::Style => "--style",
    }
}

/// Whether two strings hold the same characters.
pub fn same_text(a: &str, b: &str) -> (r: bool)
    ensures
        r == (a@ == b@),
{
    let n = a.unicode_len();
    if n != b.unicode_len() {
        return false;
    }
    let mut i: usize = 0;
    while i < n
        invariant
            n == a@.len(),
            n == b@.len(),
            i <= n,
            forall|j: int| 0 <= j < i ==> a@[j] == b@[j],
        decreases n - i,
    {
        if a.get_char(i) != b.get_char(i) {
            return false;
        }
        i = i + 1;
    }
    assert(a@ =~= b@);
    true
}

/// Reads the option at position `i` of the arguments (the program name excluded) and
/// returns it with the position of its value, which is the next argument.
pub fn read_flag(args: &Vec<String>, i: usize) -> (r: Result<(ArgFlag, usize), ConfigError>)
    requires
        i < args@.len(),
    ensures
        match r {
            Ok((flag, v)) => flag_named(args@[i as int]@) == Some(flag) && v == i + 1 && v < args@.len(),
            Err(ConfigError::UnknownArgument(s)) => flag_named(args@[i as int]@) is None && s@ == args@[i as int]@,
            Err(ConfigError::MissingValue(flag)) => flag_named(args@[i as int]@) == Some(flag) && i + 1
                == args@.len(),
            Err(_) => false,
        },
{
    let arg = args[i].as_str();
    let flag = if same_text(arg, "--build-sleep") {
        ArgFlag::BuildSleep
    } else if same_text(arg, "--solve-sleep") {
        ArgFlag::SolveSleep
    } else if same_text(arg, "--build-steps") {
        ArgFlag::BuildSteps
    } else if same_text(arg, "--solve-steps") {
        ArgFlag::SolveSteps
    } else if same_text(arg, "--wait") {
        ArgFlag::Wait
    } else if same_text(arg, "--style") {
        ArgFlag::Style
    } else {
        return Err(ConfigError::UnknownArgument(args[i].clone()));
    };
    if i < args.len() - 1 {
        Ok((flag, i + 1))
    } else {
        Err(ConfigError::MissingValue(flag))
    }
}

/// The value of the decimal digit `c`, if it is one.
pub open spec fn digit_value(c: char) -> Option<int> {
    if '0' <= c && c <= '9' {
        Some(c as int - '0' as int)
    } else {
        None
    }
}

/// Reading the digits `s` on top of `acc`, as `usize`'s `from_str` does: each character must
/// be a decimal digit, and the value must stay within `usize`; the first failure wins.
pub open spec fn read_digits(s: Seq<char>, acc: int) -> Result<int, CountError>
    decreases s.len(),
{
    if s.len() == 0 {
        Ok(acc)
    } else {
        match digit_value(s[0]) {
            None => Err(CountError::InvalidDigit),
            Some(d) => if acc * 10 + d > usize::MAX {
                Err(CountError::TooLarge)
            } else {
                read_digits(s.drop_first(), acc * 10 + d)
            },
        }
    }
}

/// What `usize`'s `from_str` makes of `s`: an optional `+` followed by decimal digits.
pub open spec fn count_value(s: Seq<char>) -> Result<int, CountError> {
    if s.len() == 0 {
        Err(CountError::Empty)
    } else if s[0] == '+' {
        if s.len() == 1 {
            Err(CountError::InvalidDigit)
        } else {
            read_digits(s.drop_first(), 0)
        }
    } else {
        read_digits(s, 0)
    }
}

/// A successful reading is at least what it started from and fits a `usize`.
pub proof fn lemma_read_digits_range(s: Seq<char>, acc: int)
    requires
        0 <= acc <= usize::MAX,
    ensures
        read_digits(s, acc) matches Ok(v) ==> acc <= v <= usize::MAX,
    decreases s.len(),
{
    if s.len() > 0 {
        if let Some(d) = digit_value(s[0]) {
            if acc * 10 + d <= usize::MAX {
                assert(acc <= acc * 10 + d) by (nonlinear_arith)
                    requires
                        acc >= 0,
                        d >= 0,
                ;
                lemma_read_digits_range(s.drop_first(), acc * 10 + d);
            }
        }
    }
}

/// Reading one more digit after `s` multiplies what `s` gave by ten and adds the digit, as
/// long as that fits a `usize`; a failure on `s` stays a failure.
pub proof fn lemma_read_digits_push(s: Seq<char>, acc: int, c: char)
    requires
        0 <= acc,
        digit_value(c) is Some,
    ensures
        read_digits(s.push(c), acc) == match read_digits(s, acc) {
            Ok(v) => if v * 10 + digit_value(c)->0 > usize::MAX {
                Err(CountError::TooLarge)
            } else {
                Ok(v * 10 + digit_value(c)->0)
            },
            Err(e) => Err(e),
        },
    decreases s.len(),
{
    if s.len() == 0 {
        let d = digit_value(c)->0;
        assert(s.push(c).drop_first() =~= Seq::<char>::empty());
        assert(s.push(c)[0] == c);
        assert(read_digits(s, acc) == Ok::<int, CountError>(acc));
        assert(read_digits(Seq::<char>::empty(), acc * 10 + d) == Ok::<int, CountError>(acc * 10 + d));
    } else {
        assert(s.push(c).drop_first() =~= s.drop_first().push(c));
        assert(s.push(c)[0] == s[0]);
        if let Some(d) = digit_value(s[0]) {
            if acc * 10 + d <= usize::MAX {
                assert(acc * 10 + d >= 0) by (nonlinear_arith)
                    requires
                        acc >= 0,
                        d >= 0,
                ;
                lemma_read_digits_push(s.drop_first(), acc * 10 + d, c);
            }
        }
    }
}

/// A count is read as a decimal number: a single digit gives its value, one more digit at
/// the end gives ten times the old count plus that digit (as long as it fits a `usize`), and
/// a leading `+` changes nothing.
pub proof fn lemma_count_is_decimal(s: Seq<char>, c: char)
    requires
        digit_value(c) is Some,
    ensures
        count_value(seq![c]) == Ok::<int, CountError>(digit_value(c)->0),
        s.len() > 0 && s[0] != '+' ==> count_value(s.push(c)) == match count_value(s) {
            Ok(v) => if v * 10 + digit_value(c)->0 > usize::MAX {
                Err(CountError::TooLarge)
            } else {
                Ok(v * 10 + digit_value(c)->0)
            },
            Err(e) => Err(e),
        },
        s.len() > 0 && s[0] != '+' ==> count_value(seq!['+'] + s) == count_value(s),
{
    assert(seq![c].drop_first() =~= Seq::<char>::empty());
    assert(c != '+');
    assert(read_digits(seq![c], 0) == read_digits(Seq::<char>::empty(), digit_value(c)->0));
    if s.len() > 0 && s[0] != '+' {
        lemma_read_digits_push(s, 0, c);
        assert(s.push(c)[0] == s[0]);
        assert((seq!['+'] + s)[0] == '+');
        assert((seq!['+'] + s).drop_first() =~= s);
    }
}

/// Reads `s` from position `i` on top of `acc` (see `read_digits`).
fn read_digits_from(s: &str, i: usize, acc: usize) -> (r: Result<usize, CountError>)
    requires
        i <= s@.len(),
    ensures
        match read_digits(s@.skip(i as int), acc as int) {
            Ok(v) => r == Ok::<usize, CountError>(v as usize),
            Err(e) => r == Err::<usize, CountError>(e),
        },
    decreases s@.len() - i,
{
    let n = s.unicode_len();
    if i == n {
        assert(s@.skip(i as int) =~= Seq::<char>::empty());
        return Ok(acc);
    }
    let c = s.get_char(i);
    assert(s@.skip(i as int)[0] == c);
    assert(s@.skip(i as int).drop_first() =~= s@.skip(i + 1));
    if c < '0' || c > '9' {
        return Err(CountError::InvalidDigit);
    }
    let d = (c as u32 - '0' as u32) as usize;
    if acc > (usize::MAX - d) / 10 {
        assert(acc * 10 + d > usize::MAX) by (nonlinear_arith)
            requires
                acc > (usize::MAX - d) / 10,
                d <= 9,
        ;
        return Err(CountError::TooLarge);
    }
    assert(acc * 10 + d <= usize::MAX) by (nonlinear_arith)
        requires
            acc <= (usize::MAX - d) / 10,
            d <= 9,
    ;
    read_digits_from(s, i + 1, acc * 10 + d)
}

/// Reads a step count: a positive decimal number.
pub fn parse_step_count(value: &str, flag: ArgFlag) -> (r: Result<usize, ConfigError>)
    ensures
        match count_value(value@) {
            Ok(v) => if v == 0 {
                r == Err::<usize, ConfigError>(ConfigError::ZeroCount(flag))
            } else {
                r == Ok::<usize, ConfigError>(v as usize)
            },
            Err(e) => (r matches Err(ConfigError::InvalidCount(f, s, e2)) && f == flag && s@ == value@
                && e2 == e),
        },
{
    let n = value.unicode_len();
    let parsed = if n == 0 {
        Err(CountError::Empty)
    } else if value.get_char(0) == '+' {
        if n == 1 {
            Err(CountError::InvalidDigit)
        } else {
            assert(value@.skip(1) =~= value@.drop_first());
            read_digits_from(value, 1, 0)
        }
    } else {
        assert(value@.skip(0) =~= value@);
        read_digits_from(value, 0, 0)
    };
    proof {
        lemma_read_digits_range(value@, 0);
        if value@.len() > 0 {
            lemma_read_digits_range(value@.drop_first(), 0);
        }
    }
    match parsed {
        Ok(steps) => {
            if steps == 0 {
                Err(ConfigError::ZeroCount(flag))
            } else {
                Ok(steps)
            }
        },
        Err(e) => Err(ConfigError::InvalidCount(flag, value.to_owned(), e)),
    }
}

/// Reads a drawing style: `lines`, `blocks` or `half-blocks`.
pub fn parse_style(value: &str) -> (r: Result<RenderStyle, ConfigError>)
    ensures
        value@ == "lines"@ ==> r == Ok::<RenderStyle, ConfigError>(RenderStyle::Lines),
        value@ == "blocks"@ ==> r == Ok::<RenderStyle, ConfigError>(RenderStyle::Blocks),
        value@ == "half-blocks"@ ==> r == Ok::<RenderStyle, ConfigError>(RenderStyle::HalfBlocks),
        value@ != "lines"@ && value@ != "blocks"@ && value@ != "half-blocks"@ ==> (r matches Err(
            ConfigError::InvalidStyle(s),
        ) && s@ == value@),
{
    proof {
        reveal_strlit("lines");
        reveal_strlit("blocks");
        reveal_strlit("half-blocks");
        assert("lines"@ != "blocks"@ && "lines"@ != "half-blocks"@ && "blocks"@ != "half-blocks"@) by {
            assert("lines"@[0] != "blocks"@[0]);
            assert("lines"@[0] != "half-blocks"@[0]);
            assert("blocks"@[0] != "half-blocks"@[0]);
        }
    }
    if same_text(value, "lines") {
        Ok(RenderStyle::Lines)
    } else if same_text(value, "blocks") {
        Ok(RenderStyle::Blocks)
    } else if same_text(value, "half-blocks") {
        Ok(RenderStyle::HalfBlocks)
    } else {
        Err(ConfigError::InvalidStyle(value.to_owned()))
    }
}

/// A sleep or wait value with its trailing `s` (for seconds) dropped, as it is read.
pub fn strip_seconds_suffix(value: &str) -> (r: &str)
    ensures
        value@.len() > 0 && value@.last() == 's' ==> r@ == value@.drop_last(),
        !(value@.len() > 0 && value@.last() == 's') ==> r@ == value@,
{
    let n = value.unicode_len();
    if n > 0 && value.get_char(n - 1) == 's' {
        value.substring_char(0, n - 1)
    } else {
        value
    }
}

} // verus!
