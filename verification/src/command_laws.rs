//! What the command line accepts, stated over the numbers and texts it is
//! given: a decimal numeral up to `u64::MAX` is read as the number it
//! writes, and an option carrying one is accepted with that number.

use vstd::prelude::*;
use crate::command::{
    arg_refusal, arg_step, args_from, command_spec, first_index_of, given_value, gives_count,
    gives_target, option_name, option_value, parse_u64_spec, positive_value_spec, read_digits,
    ArgsState, Command, CommandFailure, CommandMode, IntErrorKind, mode_spec,
    DEFAULT_TARGET,
};

verus! {

/// Every character of `s` is one of `0` to `9`.
pub open spec fn all_digits(s: Seq<char>) -> bool {
    forall|i: int| 0 <= i < s.len() ==> '0' <= #[trigger] s[i] <= '9'
}

/// The number the decimal digits `s` write, most significant first.
pub open spec fn decimal_value(s: Seq<char>) -> nat
    decreases s.len(),
{
    if s.len() == 0 {
        0
    } else {
        decimal_value(s.drop_last()) * 10 + (s.last() as int - '0' as int) as nat
    }
}

/// A longer numeral is worth at least as much as its leading part.
proof fn lemma_prefix_value_le(s: Seq<char>, j: int)
    requires
        all_digits(s),
        0 <= j <= s.len(),
    ensures
        decimal_value(s.take(j)) <= decimal_value(s),
    decreases s.len(),
{
    if j == s.len() {
        assert(s.take(j) =~= s);
    } else {
        let t = s.drop_last();
        assert(t.take(j) =~= s.take(j));
        lemma_prefix_value_le(t, j);
    }
}

/// Reading the digits from index `i` on, onto the value of those before,
/// gives the value of the whole numeral.
proof fn lemma_read_digits(s: Seq<char>, i: int)
    requires
        all_digits(s),
        0 <= i <= s.len(),
        decimal_value(s) <= u64::MAX,
    ensures
        read_digits(s, i, decimal_value(s.take(i)) as int) == Ok::<u64, IntErrorKind>(
            decimal_value(s) as u64,
        ),
    decreases s.len() - i,
{
    if i == s.len() {
        assert(s.take(i) =~= s);
    } else {
        let next = s.take(i + 1);
        assert(next.drop_last() =~= s.take(i));
        assert(next.last() == s[i]);
        lemma_prefix_value_le(s, i + 1);
        lemma_read_digits(s, i + 1);
    }
}

/// A leading character moves every reading position by one.
proof fn lemma_read_digits_shift(c: char, s: Seq<char>, i: int, acc: int)
    requires
        0 <= i <= s.len(),
    ensures
        read_digits(seq![c] + s, i + 1, acc) == read_digits(s, i, acc),
    decreases s.len() - i,
{
    let p = seq![c] + s;
    assert(p[i + 1] == s[i] || i == s.len());
    if i < s.len() {
        lemma_read_digits_shift(c, s, i + 1, acc * 10 + (s[i] as int - '0' as int));
    }
}

/// A decimal numeral whose value fits a `u64`, with or without a leading
/// `+`, parses to that value.
pub proof fn lemma_parse_u64_numeral(s: Seq<char>)
    requires
        s.len() >= 1,
        all_digits(s),
        decimal_value(s) <= u64::MAX,
    ensures
        parse_u64_spec(s) == Ok::<u64, IntErrorKind>(decimal_value(s) as u64),
        parse_u64_spec(seq!['+'] + s) == Ok::<u64, IntErrorKind>(
            decimal_value(s) as u64,
        ),
{
    assert(s.take(0) =~= Seq::<char>::empty());
    lemma_read_digits(s, 0);
    lemma_read_digits_shift('+', s, 0, 0);
    assert((seq!['+'] + s)[0] == '+');
    assert(s[0] != '+');
}

/// Under any option name, the positive value of a decimal numeral up to
/// `u64::MAX` is the number it writes, and a numeral worth zero is refused
/// as not positive.
pub proof fn lemma_positive_value_numeral(name: Seq<char>, s: Seq<char>)
    requires
        s.len() >= 1,
        all_digits(s),
        decimal_value(s) <= u64::MAX,
    ensures
        decimal_value(s) >= 1 ==> positive_value_spec(name, s) == Ok::<u64, CommandFailure>(
            decimal_value(s) as u64,
        ),
        decimal_value(s) == 0 ==> positive_value_spec(name, s) == Err::<u64, CommandFailure>(
            CommandFailure::NotPositive(name),
        ),
{
    lemma_parse_u64_numeral(s);
}

/// The positive-value reading refuses only zero and what the `u64`
/// reading refuses: it gives `v` exactly when the `u64` reading gives a
/// nonzero `v`.
pub proof fn lemma_positive_value_refuses_only_zero(name: Seq<char>, value: Seq<char>, v: u64)
    ensures
        positive_value_spec(name, value) == Ok::<u64, CommandFailure>(v) <==> (parse_u64_spec(value)
            == Ok::<u64, IntErrorKind>(v) && v != 0),
{
}

/// The digit that writes `d`, for `d < 10`.
pub open spec fn digit_char(d: nat) -> char {
    if d == 0 {
        '0'
    } else if d == 1 {
        '1'
    } else if d == 2 {
        '2'
    } else if d == 3 {
        '3'
    } else if d == 4 {
        '4'
    } else if d == 5 {
        '5'
    } else if d == 6 {
        '6'
    } else if d == 7 {
        '7'
    } else if d == 8 {
        '8'
    } else {
        '9'
    }
}

/// `v` written in decimal, without leading zeros.
pub open spec fn decimal_text(v: nat) -> Seq<char>
    decreases v,
{
    if v < 10 {
        seq![digit_char(v)]
    } else {
        decimal_text(v / 10).push(digit_char(v % 10))
    }
}

/// The decimal text of `v` is a numeral that writes `v`.
pub proof fn lemma_decimal_text(v: nat)
    ensures
        decimal_text(v).len() >= 1,
        all_digits(decimal_text(v)),
        decimal_value(decimal_text(v)) == v,
    decreases v,
{
    let d = v % 10;
    assert(digit_char(d) as int - '0' as int == d && '0' <= digit_char(d) <= '9');
    let t = decimal_text(v);
    if v < 10 {
        assert(t.drop_last() =~= Seq::<char>::empty());
        assert(d == v);
        assert(t.last() == digit_char(d));
        assert(decimal_value(t) == decimal_value(t.drop_last()) * 10 + d);
    } else {
        lemma_decimal_text(v / 10);
        assert(t.drop_last() =~= decimal_text(v / 10));
        assert(forall|i: int| 0 <= i < t.len() - 1 ==> t[i] == decimal_text(v / 10)[i]);
        assert(t.last() == digit_char(d));
        assert(decimal_value(t) == decimal_value(decimal_text(v / 10)) * 10 + d);
        assert((v / 10) * 10 + d == v);
    }
}

/// Every positive `u64`, written in decimal, is read back as itself under
/// any option name.
pub proof fn lemma_positive_value_round_trip(name: Seq<char>, v: u64)
    requires
        v >= 1,
    ensures
        positive_value_spec(name, decimal_text(v as nat)) == Ok::<u64, CommandFailure>(v),
{
    lemma_decimal_text(v as nat);
    lemma_positive_value_numeral(name, decimal_text(v as nat));
}

/// A found index holds `c` and lies at or after the start.
proof fn lemma_first_index_found(s: Seq<char>, c: char, i: int)
    requires
        first_index_of(s, c, i) is Some,
    ensures
        i <= first_index_of(s, c, i)->0 < s.len(),
        s[first_index_of(s, c, i)->0] == c,
    decreases s.len() - i,
{
    if i < s.len() && s[i] != c {
        lemma_first_index_found(s, c, i + 1);
    }
}

/// The first `c` at or after `i` is at `k` when `s[k]` is `c` and none
/// comes between.
proof fn lemma_first_index_at(s: Seq<char>, c: char, i: int, k: int)
    requires
        0 <= i <= k < s.len(),
        s[k] == c,
        forall|j: int| i <= j < k ==> s[j] != c,
    ensures
        first_index_of(s, c, i) == Some(k),
    decreases k - i,
{
    if i < k {
        lemma_first_index_at(s, c, i + 1, k);
    }
}

/// A `--count`, `--x` or `--target` option whose value the positive
/// reading accepts as `v` is accepted, whatever came before it: it gives
/// `v`, and sets the number to count up to (selecting counting) or the
/// target (selecting the `n`-th prime when no mode was selected yet).
pub proof fn lemma_valued_option_accepted(arg: Seq<char>, v: u64, state: ArgsState)
    requires
        gives_count(arg) || gives_target(arg),
        positive_value_spec(option_name(arg)->0, option_value(arg)) == Ok::<u64, CommandFailure>(v),
    ensures
        arg_refusal(arg) is None,
        given_value(arg) == v,
        gives_count(arg) ==> arg_step(arg, state) == Ok::<ArgsState, CommandFailure>(
            (Some(CommandMode::Count), state.1, Some(v)),
        ),
        gives_target(arg) ==> arg_step(arg, state) == Ok::<ArgsState, CommandFailure>(
            (
                if state.0 is None {
                    Some(CommandMode::Nth)
                } else {
                    state.0
                },
                v,
                state.2,
            ),
        ),
{
    lemma_first_index_found(arg, '=', 0);
    let k = first_index_of(arg, '=', 0)->0;
    assert(arg != seq!['-', 'h']);
    assert(arg != seq!['-', '-', 'h', 'e', 'l', 'p']);
}

/// The argument `name=value`.
pub open spec fn option_arg(name: Seq<char>, value: Seq<char>) -> Seq<char> {
    name + seq!['='] + value
}

/// A command line of one `--count=N` or `--x=N`, with `N` a decimal numeral
/// of a positive `u64`, asks to count the primes up to `N`; one
/// `--target=N` asks for the `N`-th prime.
pub proof fn lemma_single_option_command(args: Seq<String>, name: Seq<char>, digits: Seq<char>)
    requires
        args.len() == 1,
        args[0]@ == option_arg(name, digits),
        name == seq!['-', '-', 'c', 'o', 'u', 'n', 't'] || name == seq!['-', '-', 'x'] || name
            == seq!['-', '-', 't', 'a', 'r', 'g', 'e', 't'],
        digits.len() >= 1,
        all_digits(digits),
        1 <= decimal_value(digits) <= u64::MAX,
    ensures
        name != seq!['-', '-', 't', 'a', 'r', 'g', 'e', 't'] ==> command_spec(args) == Ok::<
            Command,
            CommandFailure,
        >(Command::Count(decimal_value(digits) as u64)),
        name == seq!['-', '-', 't', 'a', 'r', 'g', 'e', 't'] ==> command_spec(args) == Ok::<
            Command,
            CommandFailure,
        >(Command::Nth(decimal_value(digits) as u64)),
{
    let arg = option_arg(name, digits);
    let k = name.len() as int;
    assert forall|j: int| 0 <= j < k implies arg[j] != '=' by {
        assert(arg[j] == name[j]);
    }
    assert(arg[k] == '=');
    lemma_first_index_at(arg, '=', 0, k);
    assert(arg.subrange(0, k) =~= name);
    assert(arg.subrange(k + 1, arg.len() as int) =~= digits);
    let v = decimal_value(digits) as u64;
    lemma_positive_value_numeral(name, digits);
    let init: ArgsState = (None, DEFAULT_TARGET, None);
    lemma_valued_option_accepted(arg, v, init);
    let next = arg_step(arg, init)->Ok_0;
    assert(args_from(args, 1, next) == Ok::<ArgsState, CommandFailure>(next));
    assert(args_from(args, 0, init) == args_from(args, 1, next));
}

/// A successful reading of the digits from `i` on means the rest are
/// digits too, and the value read is that of the whole numeral.
proof fn lemma_read_digits_ok(s: Seq<char>, i: int)
    requires
        0 <= i <= s.len(),
        forall|j: int| 0 <= j < i ==> '0' <= #[trigger] s[j] <= '9',
        decimal_value(s.take(i)) <= u64::MAX,
        read_digits(s, i, decimal_value(s.take(i)) as int) is Ok,
    ensures
        all_digits(s),
        decimal_value(s) <= u64::MAX,
        read_digits(s, i, decimal_value(s.take(i)) as int) == Ok::<u64, IntErrorKind>(
            decimal_value(s) as u64,
        ),
    decreases s.len() - i,
{
    if i == s.len() {
        assert(s.take(i) =~= s);
    } else {
        let next = s.take(i + 1);
        assert(next.drop_last() =~= s.take(i));
        assert(next.last() == s[i]);
        lemma_read_digits_ok(s, i + 1);
    }
}

/// The `u64` reading accepts only decimal numerals (with an optional
/// leading `+`) whose value fits, and gives their value.
pub proof fn lemma_parse_u64_accepts_only_numerals(s: Seq<char>)
    requires
        parse_u64_spec(s) is Ok,
    ensures
        s[0] == '+' ==> s.len() >= 2 && all_digits(s.drop_first()) && parse_u64_spec(s)
            == Ok::<u64, IntErrorKind>(decimal_value(s.drop_first()) as u64),
        s[0] != '+' ==> s.len() >= 1 && all_digits(s) && parse_u64_spec(s) == Ok::<
            u64,
            IntErrorKind,
        >(decimal_value(s) as u64),
{
    assert(s.len() >= 1);
    if s[0] == '+' {
        let t = s.drop_first();
        assert(seq!['+'] + t =~= s);
        lemma_read_digits_shift('+', t, 0, 0);
        assert(t.take(0) =~= Seq::<char>::empty());
        lemma_read_digits_ok(t, 0);
    } else {
        assert(s.take(0) =~= Seq::<char>::empty());
        lemma_read_digits_ok(s, 0);
    }
}

/// Reading a numeral whose value passes `u64::MAX` overflows.
proof fn lemma_read_digits_overflow(s: Seq<char>, i: int)
    requires
        all_digits(s),
        0 <= i <= s.len(),
        decimal_value(s.take(i)) <= u64::MAX < decimal_value(s),
    ensures
        read_digits(s, i, decimal_value(s.take(i)) as int) == Err::<u64, IntErrorKind>(
            IntErrorKind::PosOverflow,
        ),
    decreases s.len() - i,
{
    if i == s.len() {
        assert(s.take(i) =~= s);
    } else {
        let next = s.take(i + 1);
        assert(next.drop_last() =~= s.take(i));
        assert(next.last() == s[i]);
        if decimal_value(next) <= u64::MAX {
            lemma_read_digits_overflow(s, i + 1);
        }
    }
}

/// A decimal numeral whose value passes `u64::MAX` is refused as too large.
pub proof fn lemma_parse_u64_overflow(s: Seq<char>)
    requires
        s.len() >= 1,
        all_digits(s),
        decimal_value(s) > u64::MAX,
    ensures
        parse_u64_spec(s) == Err::<u64, IntErrorKind>(IntErrorKind::PosOverflow),
{
    assert(s.take(0) =~= Seq::<char>::empty());
    assert(s[0] != '+');
    lemma_read_digits_overflow(s, 0);
}

/// `--mode` takes `count` and `pi` for counting, `invert`, `nth` and
/// `nth-pi` for the `n`-th prime, and refuses every other word.
pub proof fn lemma_mode_words(value: Seq<char>)
    ensures
        mode_spec(value) == Ok::<CommandMode, CommandFailure>(CommandMode::Count) <==> (value
            == seq!['c', 'o', 'u', 'n', 't'] || value == seq!['p', 'i']),
        mode_spec(value) == Ok::<CommandMode, CommandFailure>(CommandMode::Nth) <==> (value
            == seq!['i', 'n', 'v', 'e', 'r', 't'] || value == seq!['n', 't', 'h'] || value == seq![
            'n',
            't',
            'h',
            '-',
            'p',
            'i',
        ]),
        mode_spec(value) is Err ==> mode_spec(value) == Err::<CommandMode, CommandFailure>(
            CommandFailure::InvalidMode(value),
        ),
{
}

} // verus!
