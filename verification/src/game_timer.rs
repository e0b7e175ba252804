//! The run clock and its display form.

use vstd::prelude::*;
use vstd::string::StringExecFns;

verus! {

/// The decimal digit character for one digit value.
pub open spec fn spec_digit_char(d: int) -> char {
    if d == 0 {
        '0'
    } else if d == 1 {
        '1'
    } else if d == 2 {
        '2'
    } else if d == 3 {
        '3'
    } else if d == 4 {
        '4'
    } else if d == 5 {
        '5'
    } else if d == 6 {
        '6'
    } else if d == 7 {
        '7'
    } else if d == 8 {
        '8'
    } else {
        '9'
    }
}

/// The decimal digits of a non-negative number, most significant first.
pub open spec fn spec_decimal(n: int) -> Seq<char>
    decreases n,
{
    if n < 10 {
        seq![spec_digit_char(n)]
    } else {
        spec_decimal(n / 10) + seq![spec_digit_char(n % 10)]
    }
}

/// A two-digit zero-padded field, for values below one hundred.
pub open spec fn spec_two_digits(v: int) -> Seq<char> {
    seq![spec_digit_char(v / 10), spec_digit_char(v % 10)]
}

/// A number zero-padded to at least two digits.
pub open spec fn spec_padded(v: int) -> Seq<char> {
    if v < 10 {
        seq!['0'] + spec_decimal(v)
    } else {
        spec_decimal(v)
    }
}

/// The display form of an elapsed time in whole seconds: minutes and
/// seconds as two-digit fields, with an hour field in front only once a
/// full hour has passed.
pub open spec fn spec_time_string(elapsed_secs: u64) -> Seq<char> {
    let seconds = elapsed_secs as int % 60;
    let minutes = (elapsed_secs as int / 60) % 60;
    let hours = (elapsed_secs as int / 60) / 60;
    if hours > 0 {
        spec_padded(hours) + seq![':'] + spec_two_digits(minutes) + seq![':'] + spec_two_digits(
            seconds,
        )
    } else {
        spec_two_digits(minutes) + seq![':'] + spec_two_digits(seconds)
    }
}

fn append_digit(text: &mut String, d: u64)
    requires
        d < 10,
    ensures
        final(text)@ == old(text)@ + seq![spec_digit_char(d as int)],
{
    proof {
        reveal_strlit("0");
        reveal_strlit("1");
        reveal_strlit("2");
        reveal_strlit("3");
        reveal_strlit("4");
        reveal_strlit("5");
        reveal_strlit("6");
        reveal_strlit("7");
        reveal_strlit("8");
        reveal_strlit("9");
    }
    match d {
        0 => text.append("0"),
        1 => text.append("1"),
        2 => text.append("2"),
        3 => text.append("3"),
        4 => text.append("4"),
        5 => text.append("5"),
        6 => text.append("6"),
        7 => text.append("7"),
        8 => text.append("8"),
        _ => text.append("9"),
    }
    proof {
        assert(final(text)@ =~= old(text)@ + seq![spec_digit_char(d as int)]);
    }
}

fn append_decimal(text: &mut String, n: u64)
    ensures
        final(text)@ == old(text)@ + spec_decimal(n as int),
    decreases n,
{
    if n < 10 {
        append_digit(text, n);
    } else {
        append_decimal(text, n / 10);
        append_digit(text, n % 10);
        proof {
            assert(text@ =~= old(text)@ + spec_decimal(n as int));
        }
    }
}

fn append_two_digits(text: &mut String, v: u64)
    requires
        v < 100,
    ensures
        final(text)@ == old(text)@ + spec_two_digits(v as int),
{
    append_digit(text, v / 10);
    append_digit(text, v % 10);
    proof {
        assert(text@ =~= old(text)@ + spec_two_digits(v as int));
    }
}

/// The run clock: total in-game time, in milliseconds, paused along with
/// the game by simply not being advanced.
#[derive(PartialEq, Eq, Structural, Clone, Copy, Debug)]
pub struct GameTimer {
    pub elapsed_millis: u64,
}

impl Default for GameTimer {
    fn default() -> (timer: Self)
        ensures
            timer.elapsed_millis == 0,
    {
        Self { elapsed_millis: 0 }
    }
}

impl GameTimer {
    /// Advances the clock by one tick's duration.
    pub fn tick(&mut self, delta_millis: u64)
        requires
            old(self).elapsed_millis + delta_millis <= u64::MAX,
        ensures
            final(self).elapsed_millis == old(self).elapsed_millis + delta_millis,
    {
        self.elapsed_millis = self.elapsed_millis + delta_millis;
    }

    /// The clock's display form: `minutes:seconds`, both zero-padded to
    /// two digits, with an hour field in front once a full hour has
    /// passed.
    pub fn to_time_string(&self) -> (text: String)
        ensures
            text@ == spec_time_string(self.elapsed_millis / 1000),
    {
        let elapsed_secs = self.elapsed_millis / 1000;
        let seconds = elapsed_secs % 60;
        let minutes = (elapsed_secs / 60) % 60;
        let hours = (elapsed_secs / 60) / 60;
        let mut text = String::new();
        proof {
            reveal_strlit("0");
            reveal_strlit(":");
        }
        if hours > 0 {
            if hours < 10 {
                text.append("0");
            }
            append_decimal(&mut text, hours);
            proof {
                assert(text@ =~= spec_padded(hours as int));
            }
            text.append(":");
            append_two_digits(&mut text, minutes);
            text.append(":");
            append_two_digits(&mut text, seconds);
            proof {
                assert(text@ =~= spec_time_string(elapsed_secs));
            }
        } else {
            append_two_digits(&mut text, minutes);
            text.append(":");
            append_two_digits(&mut text, seconds);
            proof {
                assert(text@ =~= spec_time_string(elapsed_secs));
            }
        }
        text
    }
}

} // verus!
