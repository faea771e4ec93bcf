//! The command line: `--target=N` asks for the `N`-th prime, `--count=N`
//! (or `--x=N`) for the number of primes up to `N`, and `--mode=` picks
//! between the two.

use vstd::prelude::*;

verus! {

/// The target used when none is given: the billionth prime.
pub const DEFAULT_TARGET: u64 = 1_000_000_000;

/// What to compute.
#[derive(Debug, Clone, Copy, PartialEq, Eq, Structural)]
pub enum Command {
    /// Count the primes up to the value.
    Count(u64),
    /// Find the prime with this index.
    Nth(u64),
}

/// Which of the two commands `--mode` selects.
#[derive(Debug, Clone, Copy, PartialEq, Eq, Structural)]
pub enum CommandMode {
    Count,
    Nth,
}

/// Why a decimal number did not parse as a `u64`.
#[derive(Debug, Clone, Copy, PartialEq, Eq, Structural)]
pub enum IntErrorKind {
    /// The text was empty.
    Empty,
    /// A character other than a digit (or a lone leading `+`).
    InvalidDigit,
    /// The number exceeds `u64::MAX`.
    PosOverflow,
}

/// Why the command line was refused.
#[derive(Debug, PartialEq, Eq)]
pub enum CommandError {
    /// `-h` or `--help` was given.
    Help,
    /// An argument without `=`.
    UnexpectedArgument(String),
    /// An option name that is not known.
    UnknownOption(String),
    /// An option value that is not a `u64`.
    InvalidValue(String, IntErrorKind),
    /// An option value of zero where a positive number is needed.
    NotPositive(String),
    /// A `--mode` value that names no mode.
    InvalidMode(String),
}

/// `CommandError` with its text as characters.
pub enum CommandFailure {
    Help,
    UnexpectedArgument(Seq<char>),
    UnknownOption(Seq<char>),
    InvalidValue(Seq<char>, IntErrorKind),
    NotPositive(Seq<char>),
    InvalidMode(Seq<char>),
}

impl View for CommandError {
    type V = CommandFailure;

    open spec fn view(&self) -> CommandFailure {
        match self {
            CommandError::Help => CommandFailure::Help,
            CommandError::UnexpectedArgument(s) => CommandFailure::UnexpectedArgument(s@),
            CommandError::UnknownOption(s) => CommandFailure::UnknownOption(s@),
            CommandError::InvalidValue(s, k) => CommandFailure::InvalidValue(s@, *k),
            CommandError::NotPositive(s) => CommandFailure::NotPositive(s@),
            CommandError::InvalidMode(s) => CommandFailure::InvalidMode(s@),
        }
    }
}

/// `c` is one of `0` to `9`.
pub open spec fn is_decimal_digit(c: char) -> bool {
    '0' <= c <= '9'
}

/// Reading the digits of `s` from index `i` on, onto the value `acc` of
/// those before: the first character that is not a digit, or the first
/// digit that takes the value past `u64::MAX`, ends it with an error.
pub open spec fn read_digits(s: Seq<char>, i: int, acc: int) -> Result<u64, IntErrorKind>
    decreases s.len() - i,
{
    if i >= s.len() {
        Ok(acc as u64)
    } else if !is_decimal_digit(s[i]) {
        Err(IntErrorKind::InvalidDigit)
    } else if acc * 10 + (s[i] as int - '0' as int) > u64::MAX {
        Err(IntErrorKind::PosOverflow)
    } else {
        read_digits(s, i + 1, acc * 10 + (s[i] as int - '0' as int))
    }
}

/// A `u64` in decimal: an optional `+` and at least one digit.
pub open spec fn parse_u64_spec(s: Seq<char>) -> Result<u64, IntErrorKind> {
    if s.len() == 0 {
        Err(IntErrorKind::Empty)
    } else if s[0] == '+' {
        if s.len() == 1 {
            Err(IntErrorKind::InvalidDigit)
        } else {
            read_digits(s, 1, 0)
        }
    } else {
        read_digits(s, 0, 0)
    }
}

/// Parses a `u64` written in decimal, with an optional leading `+`.
pub fn parse_u64(s: &str) -> (parsed: Result<u64, IntErrorKind>)
    ensures
        parsed == parse_u64_spec(s@),
{
    let n = s.unicode_len();
    if n == 0 {
        return Err(IntErrorKind::Empty);
    }
    let mut i: usize = 0;
    if s.get_char(0) == '+' {
        if n == 1 {
            return Err(IntErrorKind::InvalidDigit);
        }
        i = 1;
    }
    let ghost start = i as int;
    let mut acc: u64 = 0;
    while i < n
        invariant
            n == s@.len(),
            start <= i <= n,
            parse_u64_spec(s@) == read_digits(s@, i as int, acc as int),
        decreases n - i,
    {
        let c = s.get_char(i);
        if !(c >= '0' && c <= '9') {
            return Err(IntErrorKind::InvalidDigit);
        }
        let digit = (c as u32 - '0' as u32) as u64;
        let value = match acc.checked_mul(10) {
            Some(shifted) => match shifted.checked_add(digit) {
                Some(value) => value,
                None => {
                    return Err(IntErrorKind::PosOverflow);
                },
            },
            None => {
                return Err(IntErrorKind::PosOverflow);
            },
        };
        acc = value;
        i += 1;
    }
    Ok(acc)
}

/// A positive `u64` for the option `name`.
pub open spec fn positive_value_spec(name: Seq<char>, value: Seq<char>) -> Result<
    u64,
    CommandFailure,
> {
    match parse_u64_spec(value) {
        Err(kind) => Err(CommandFailure::InvalidValue(name, kind)),
        Ok(v) => if v == 0 {
            Err(CommandFailure::NotPositive(name))
        } else {
            Ok(v)
        },
    }
}

/// Parses the value of option `name` as a positive `u64`.
pub fn parse_positive_u64(name: &str, value: &str) -> (parsed: Result<u64, CommandError>)
    ensures
        match parsed {
            Ok(v) => positive_value_spec(name@, value@) == Ok::<u64, CommandFailure>(v),
            Err(e) => positive_value_spec(name@, value@) == Err::<u64, CommandFailure>(e@),
        },
{
    let parsed = match parse_u64(value) {
        Ok(v) => v,
        Err(kind) => {
            return Err(CommandError::InvalidValue(name.to_owned(), kind));
        },
    };
    if parsed == 0 {
        return Err(CommandError::NotPositive(name.to_owned()));
    }
    Ok(parsed)
}

/// `s` is exactly the characters of `lit`.
fn same_text(s: &str, lit: &str) -> (same: bool)
    ensures
        same == (s@ == lit@),
{
    let n = s.unicode_len();
    let m = lit.unicode_len();
    if n != m {
        return false;
    }
    let mut i: usize = 0;
    while i < n
        invariant
            n == s@.len(),
            m == lit@.len(),
            n == m,
            i <= n,
            forall|k: int| 0 <= k < i ==> s@[k] == lit@[k],
        decreases n - i,
    {
        if s.get_char(i) != lit.get_char(i) {
            return false;
        }
        i += 1;
    }
    assert(s@ =~= lit@);
    true
}

/// The mode that `value` names.
pub open spec fn mode_spec(value: Seq<char>) -> Result<CommandMode, CommandFailure> {
    if value == seq!['c', 'o', 'u', 'n', 't'] || value == seq!['p', 'i'] {
        Ok(CommandMode::Count)
    } else if value == seq!['i', 'n', 'v', 'e', 'r', 't'] || value == seq!['n', 't', 'h'] || value
        == seq!['n', 't', 'h', '-', 'p', 'i'] {
        Ok(CommandMode::Nth)
    } else {
        Err(CommandFailure::InvalidMode(value))
    }
}

impl CommandMode {
    /// `count` or `pi` select counting; `invert`, `nth` or `nth-pi` the `n`-th prime.
    pub fn parse(value: &str) -> (mode: Result<Self, CommandError>)
        ensures
            match mode {
                Ok(m) => mode_spec(value@) == Ok::<CommandMode, CommandFailure>(m),
                Err(e) => mode_spec(value@) == Err::<CommandMode, CommandFailure>(e@),
            },
    {
        proof {
            reveal_strlit("count");
            assert("count"@ =~= seq!['c', 'o', 'u', 'n', 't']);
            reveal_strlit("pi");
            assert("pi"@ =~= seq!['p', 'i']);
            reveal_strlit("invert");
            assert("invert"@ =~= seq!['i', 'n', 'v', 'e', 'r', 't']);
            reveal_strlit("nth");
            assert("nth"@ =~= seq!['n', 't', 'h']);
            reveal_strlit("nth-pi");
            assert("nth-pi"@ =~= seq!['n', 't', 'h', '-', 'p', 'i']);
        }
        if same_text(value, "count") || same_text(value, "pi") {
            Ok(CommandMode::Count)
        } else if same_text(value, "invert") || same_text(value, "nth") || same_text(
            value,
            "nth-pi",
        ) {
            Ok(CommandMode::Nth)
        } else {
            Err(CommandError::InvalidMode(value.to_owned()))
        }
    }
}

/// The index of the first `c` in `s` at or after `i`.
pub open spec fn first_index_of(s: Seq<char>, c: char, i: int) -> Option<int>
    decreases s.len() - i,
{
    if i >= s.len() {
        None
    } else if s[i] == c {
        Some(i)
    } else {
        first_index_of(s, c, i + 1)
    }
}

/// What the options read so far have set: the mode, the target, and the
/// value to count up to.
pub type ArgsState = (Option<CommandMode>, u64, Option<u64>);

/// The effect of one argument on the state, or why it is refused.
pub open spec fn arg_step(arg: Seq<char>, state: ArgsState) -> Result<ArgsState, CommandFailure> {
    let (mode, target, count_x) = state;
    if arg == seq!['-', 'h'] || arg == seq!['-', '-', 'h', 'e', 'l', 'p'] {
        Err(CommandFailure::Help)
    } else {
        match first_index_of(arg, '=', 0) {
            None => Err(CommandFailure::UnexpectedArgument(arg)),
            Some(k) => {
                let name = arg.subrange(0, k);
                let value = arg.subrange(k + 1, arg.len() as int);
                if name == seq!['-', '-', 'c', 'o', 'u', 'n', 't'] || name == seq!['-', '-', 'x'] {
                    match positive_value_spec(name, value) {
                        Ok(v) => Ok((Some(CommandMode::Count), target, Some(v))),
                        Err(e) => Err(e),
                    }
                } else if name == seq!['-', '-', 't', 'a', 'r', 'g', 'e', 't'] {
                    match positive_value_spec(name, value) {
                        Ok(v) => Ok(
                            (
                                if mode is None {
                                    Some(CommandMode::Nth)
                                } else {
                                    mode
                                },
                                v,
                                count_x,
                            ),
                        ),
                        Err(e) => Err(e),
                    }
                } else if name == seq!['-', '-', 'm', 'o', 'd', 'e'] {
                    match mode_spec(value) {
                        Ok(m) => Ok((Some(m), target, count_x)),
                        Err(e) => Err(e),
                    }
                } else {
                    Err(CommandFailure::UnknownOption(name))
                }
            },
        }
    }
}

/// Reading the arguments from index `i` on, from `state`.
pub open spec fn args_from(args: Seq<String>, i: int, state: ArgsState) -> Result<
    ArgsState,
    CommandFailure,
>
    decreases args.len() - i,
{
    if i >= args.len() {
        Ok(state)
    } else {
        match arg_step(args[i]@, state) {
            Ok(next) => args_from(args, i + 1, next),
            Err(e) => Err(e),
        }
    }
}

/// The command the arguments ask for: the last mode given (the `n`-th
/// prime when none is), with the last value given for it.
pub open spec fn command_spec(args: Seq<String>) -> Result<Command, CommandFailure> {
    match args_from(args, 0, (None, DEFAULT_TARGET, None)) {
        Ok((mode, target, count_x)) => Ok(
            match mode {
                Some(CommandMode::Count) => Command::Count(
                    match count_x {
                        Some(x) => x,
                        None => target,
                    },
                ),
                _ => Command::Nth(target),
            },
        ),
        Err(e) => Err(e),
    }
}

impl Command {
    /// Reads the command from the program's arguments (without the program name).
    pub fn from_args(args: &[String]) -> (command: Result<Self, CommandError>)
        ensures
            match command {
                Ok(c) => command_spec(args@) == Ok::<Command, CommandFailure>(c),
                Err(e) => command_spec(args@) == Err::<Command, CommandFailure>(e@),
            },
    {
        let mut mode: Option<CommandMode> = None;
        let mut target: u64 = DEFAULT_TARGET;
        let mut count_x: Option<u64> = None;
        let mut i: usize = 0;
        while i < args.len()
            invariant
                i <= args.len(),
                args_from(args@, 0, (None, DEFAULT_TARGET, None)) == args_from(
                    args@,
                    i as int,
                    (mode, target, count_x),
                ),
            decreases args.len() - i,
        {
            proof {
                reveal_strlit("-h");
                assert("-h"@ =~= seq!['-', 'h']);
                reveal_strlit("--help");
                assert("--help"@ =~= seq!['-', '-', 'h', 'e', 'l', 'p']);
                reveal_strlit("--count");
                assert("--count"@ =~= seq!['-', '-', 'c', 'o', 'u', 'n', 't']);
                reveal_strlit("--x");
                assert("--x"@ =~= seq!['-', '-', 'x']);
                reveal_strlit("--target");
                assert("--target"@ =~= seq!['-', '-', 't', 'a', 'r', 'g', 'e', 't']);
                reveal_strlit("--mode");
                assert("--mode"@ =~= seq!['-', '-', 'm', 'o', 'd', 'e']);
            }
            let arg = args[i].as_str();
            if same_text(arg, "-h") || same_text(arg, "--help") {
                return Err(CommandError::Help);
            }
            let n = arg.unicode_len();
            let mut k: usize = 0;
            while k < n && arg.get_char(k) != '='
                invariant
                    n == arg@.len(),
                    k <= n,
                    first_index_of(arg@, '=', 0) == first_index_of(arg@, '=', k as int),
                decreases n - k,
            {
                k += 1;
            }
            if k == n {
                return Err(CommandError::UnexpectedArgument(args[i].clone()));
            }
            let name = arg.substring_char(0, k);
            let value = arg.substring_char(k + 1, n);
            if same_text(name, "--count") || same_text(name, "--x") {
                mode = Some(CommandMode::Count);
                count_x = Some(parse_positive_u64(name, value)?);
            } else if same_text(name, "--target") {
                if mode.is_none() {
                    mode = Some(CommandMode::Nth);
                }
                target = parse_positive_u64(name, value)?;
            } else if same_text(name, "--mode") {
                mode = Some(CommandMode::parse(value)?);
            } else {
                return Err(CommandError::UnknownOption(name.to_owned()));
            }
            i += 1;
        }
        Ok(
            match mode {
                Some(CommandMode::Count) => Self::Count(
                    match count_x {
                        Some(x) => x,
                        None => target,
                    },
                ),
                _ => Self::Nth(target),
            },
        )
    }
}

/// The part of `arg` before its first `=`, when it has one.
pub open spec fn option_name(arg: Seq<char>) -> Option<Seq<char>> {
    match first_index_of(arg, '=', 0) {
        Some(k) => Some(arg.subrange(0, k)),
        None => None,
    }
}

/// The part of `arg` after its first `=` (empty when it has none).
pub open spec fn option_value(arg: Seq<char>) -> Seq<char> {
    match first_index_of(arg, '=', 0) {
        Some(k) => arg.subrange(k + 1, arg.len() as int),
        None => Seq::empty(),
    }
}

/// `arg` gives the target: `--target=N`.
pub open spec fn gives_target(arg: Seq<char>) -> bool {
    option_name(arg) == Some(seq!['-', '-', 't', 'a', 'r', 'g', 'e', 't'])
}

/// `arg` gives the number to count up to: `--count=N` or `--x=N`.
pub open spec fn gives_count(arg: Seq<char>) -> bool {
    option_name(arg) == Some(seq!['-', '-', 'c', 'o', 'u', 'n', 't']) || option_name(arg) == Some(
        seq!['-', '-', 'x'],
    )
}

/// The mode that `arg` selects, if it selects one: counting for `--count`
/// and `--x`, the named mode for `--mode`.
pub open spec fn selected_mode(arg: Seq<char>) -> Option<CommandMode> {
    if gives_count(arg) {
        Some(CommandMode::Count)
    } else if option_name(arg) == Some(seq!['-', '-', 'm', 'o', 'd', 'e']) {
        match mode_spec(option_value(arg)) {
            Ok(m) => Some(m),
            Err(_) => None,
        }
    } else {
        None
    }
}

/// The positive number that an accepted `--target`, `--count` or `--x`
/// argument gives.
pub open spec fn given_value(arg: Seq<char>) -> u64 {
    match option_name(arg) {
        Some(name) => match positive_value_spec(name, option_value(arg)) {
            Ok(v) => v,
            Err(_) => 0,
        },
        None => 0,
    }
}

/// Why `arg` is refused on its own, or nothing when it is accepted.
pub open spec fn arg_refusal(arg: Seq<char>) -> Option<CommandFailure> {
    match arg_step(arg, (None, DEFAULT_TARGET, None)) {
        Ok(_) => None,
        Err(e) => Some(e),
    }
}

/// Whether an argument is refused does not depend on those before it; an
/// accepted one sets the target, the number to count up to and the mode
/// that it gives, and leaves the rest (a target selects the `n`-th prime
/// only when no mode was selected yet).
proof fn lemma_arg_step(arg: Seq<char>, state: ArgsState)
    ensures
        match arg_step(arg, state) {
            Err(e) => arg_refusal(arg) == Some(e),
            Ok(next) => {
                &&& arg_refusal(arg) is None
                &&& next.1 == if gives_target(arg) {
                    given_value(arg)
                } else {
                    state.1
                }
                &&& next.2 == if gives_count(arg) {
                    Some(given_value(arg))
                } else {
                    state.2
                }
                &&& next.0 == if selected_mode(arg) is Some {
                    selected_mode(arg)
                } else if gives_target(arg) && state.0 is None {
                    Some(CommandMode::Nth)
                } else {
                    state.0
                }
            },
        },
{
}

/// Reading `args` from index `i` on, from `state`: it is refused exactly
/// when one of those arguments is refused on its own, with the refusal of
/// the first; when it is accepted, the last target, the last number to
/// count up to and the last mode given win over `state`.
proof fn lemma_args_from(args: Seq<String>, i: int, state: ArgsState)
    requires
        0 <= i <= args.len(),
    ensures
        args_from(args, i, state) is Err <==> exists|j: int|
            i <= j < args.len() && #[trigger] arg_refusal(args[j]@) is Some,
        forall|j: int|
            i <= j < args.len() && #[trigger] arg_refusal(args[j]@) is Some && (forall|k: int|
                i <= k < j ==> arg_refusal(args[k]@) is None) ==> args_from(args, i, state)
                == Err::<ArgsState, CommandFailure>(arg_refusal(args[j]@)->0),
        args_from(args, i, state) matches Ok(read) ==> {
            &&& (forall|j: int| i <= j < args.len() ==> !#[trigger] gives_target(args[j]@))
                ==> read.1 == state.1
            &&& forall|j: int|
                i <= j < args.len() && #[trigger] gives_target(args[j]@) && (forall|k: int|
                    j < k < args.len() ==> !gives_target(args[k]@)) ==> read.1 == given_value(
                    args[j]@,
                )
            &&& (forall|j: int| i <= j < args.len() ==> !#[trigger] gives_count(args[j]@))
                ==> read.2 == state.2
            &&& forall|j: int|
                i <= j < args.len() && #[trigger] gives_count(args[j]@) && (forall|k: int|
                    j < k < args.len() ==> !gives_count(args[k]@)) ==> read.2 == Some(
                    given_value(args[j]@),
                )
            &&& (forall|j: int| i <= j < args.len() ==> #[trigger] selected_mode(args[j]@) is None)
                ==> (read.0 == Some(CommandMode::Count) <==> state.0 == Some(CommandMode::Count))
                && (state.0 is Some ==> read.0 == state.0)
            &&& forall|j: int|
                i <= j < args.len() && #[trigger] selected_mode(args[j]@) is Some && (forall|k: int|
                    j < k < args.len() ==> selected_mode(args[k]@) is None) ==> read.0
                    == selected_mode(args[j]@)
        },
    decreases args.len() - i,
{
    if i < args.len() {
        let arg = args[i]@;
        lemma_arg_step(arg, state);
        match arg_step(arg, state) {
            Err(e) => {},
            Ok(next) => {
                lemma_args_from(args, i + 1, next);
                assert(args_from(args, i, state) == args_from(args, i + 1, next));
                if let Ok(read) = args_from(args, i + 1, next) {
                    assert forall|j: int|
                        i <= j < args.len() && #[trigger] gives_target(args[j]@) && (forall|k: int|
                            j < k < args.len() ==> !gives_target(args[k]@)) implies read.1
                        == given_value(args[j]@) by {
                        if j == i {
                            assert forall|k: int| i + 1 <= k < args.len() implies !#[trigger] gives_target(
                                args[k]@,
                            ) by {}
                        }
                    }
                    assert forall|j: int|
                        i <= j < args.len() && #[trigger] gives_count(args[j]@) && (forall|k: int|
                            j < k < args.len() ==> !gives_count(args[k]@)) implies read.2 == Some(
                        given_value(args[j]@),
                    ) by {
                        if j == i {
                            assert forall|k: int| i + 1 <= k < args.len() implies !#[trigger] gives_count(
                                args[k]@,
                            ) by {}
                        }
                    }
                    assert forall|j: int|
                        i <= j < args.len() && #[trigger] selected_mode(args[j]@) is Some && (forall|
                            k: int,
                        | j < k < args.len() ==> selected_mode(args[k]@) is None) implies read.0
                        == selected_mode(args[j]@) by {
                        if j == i {
                            assert forall|k: int| i + 1 <= k < args.len() implies #[trigger] selected_mode(
                                args[k]@,
                            ) is None by {}
                        }
                    }
                    if forall|j: int| i <= j < args.len() ==> !#[trigger] gives_target(args[j]@) {
                        assert(!gives_target(args[i]@));
                    }
                    if forall|j: int| i <= j < args.len() ==> !#[trigger] gives_count(args[j]@) {
                        assert(!gives_count(args[i]@));
                    }
                    if forall|j: int| i <= j < args.len() ==> #[trigger] selected_mode(args[j]@) is None {
                        assert(selected_mode(args[i]@) is None);
                    }
                }
            },
        }
    }
}

/// The index of the last argument among `args` for which `p` holds, if any.
pub open spec fn last_index(args: Seq<String>, p: spec_fn(Seq<char>) -> bool) -> Option<int>
    decreases args.len(),
{
    if args.len() == 0 {
        None
    } else if p(args.last()@) {
        Some(args.len() - 1)
    } else {
        last_index(args.drop_last(), p)
    }
}

/// The value of the last `--target` among `args`, or the default target
/// when there is none.
pub open spec fn last_target(args: Seq<String>) -> u64 {
    match last_index(args, |arg: Seq<char>| gives_target(arg)) {
        Some(i) => given_value(args[i]@),
        None => DEFAULT_TARGET,
    }
}

/// The value of the last `--count` or `--x` among `args`, if any.
pub open spec fn last_count(args: Seq<String>) -> Option<u64> {
    match last_index(args, |arg: Seq<char>| gives_count(arg)) {
        Some(i) => Some(given_value(args[i]@)),
        None => None,
    }
}

/// The mode selected by the last argument among `args` that selects one.
pub open spec fn last_mode(args: Seq<String>) -> Option<CommandMode> {
    match last_index(args, |arg: Seq<char>| selected_mode(arg) is Some) {
        Some(i) => selected_mode(args[i]@),
        None => None,
    }
}

/// `last_index` finds nothing when `p` holds of no argument, and otherwise
/// the argument after which `p` holds of no other.
proof fn lemma_last_index(args: Seq<String>, p: spec_fn(Seq<char>) -> bool)
    ensures
        match last_index(args, p) {
            None => forall|j: int| 0 <= j < args.len() ==> !p(#[trigger] args[j]@),
            Some(i) => 0 <= i < args.len() && p(args[i]@) && forall|k: int|
                i < k < args.len() ==> !p(#[trigger] args[k]@),
        },
    decreases args.len(),
{
    if args.len() > 0 && !p(args.last()@) {
        let prefix = args.drop_last();
        lemma_last_index(prefix, p);
        assert forall|j: int| 0 <= j < prefix.len() implies prefix[j] == args[j] by {}
    }
}

/// The arguments are refused exactly when one of them is refused on its
/// own, and then with the refusal of the first such argument.
pub proof fn lemma_command_refusal(args: Seq<String>)
    ensures
        command_spec(args) is Err <==> exists|i: int|
            0 <= i < args.len() && #[trigger] arg_refusal(args[i]@) is Some,
        forall|i: int|
            0 <= i < args.len() && #[trigger] arg_refusal(args[i]@) is Some && (forall|k: int|
                0 <= k < i ==> arg_refusal(args[k]@) is None) ==> command_spec(args) == Err::<
                Command,
                CommandFailure,
            >(arg_refusal(args[i]@)->0),
{
    lemma_args_from(args, 0, (None, DEFAULT_TARGET, None));
}

/// Accepted arguments ask to count when the last argument that selects a
/// mode selects counting, up to the last `--count` or `--x` value, or the
/// target when none is given; otherwise they ask for the `n`-th prime, `n`
/// being the last `--target` value, or the default when none is given.
pub proof fn lemma_command_reading(args: Seq<String>)
    requires
        command_spec(args) is Ok,
    ensures
        command_spec(args) == Ok::<Command, CommandFailure>(
            if last_mode(args) == Some(CommandMode::Count) {
                Command::Count(
                    match last_count(args) {
                        Some(x) => x,
                        None => last_target(args),
                    },
                )
            } else {
                Command::Nth(last_target(args))
            },
        ),
{
    lemma_args_from(args, 0, (None, DEFAULT_TARGET, None));
    lemma_last_index(args, |arg: Seq<char>| gives_target(arg));
    lemma_last_index(args, |arg: Seq<char>| gives_count(arg));
    lemma_last_index(args, |arg: Seq<char>| selected_mode(arg) is Some);
}

} // verus!
