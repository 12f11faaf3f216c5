//! A number of seconds told in hours, minutes and seconds.

use vstd::prelude::*;
use vstd::string::StringExecFns;

use crate::render::{number_text, push_number};

verus! {

/// The ending of a unit of which there are `n`: an "s" unless there is one.
pub open spec fn plural(n: int) -> Seq<char> {
    if n != 1 {
        "s"@
    } else {
        Seq::empty()
    }
}

/// The text of `n` units named `unit`.
pub open spec fn amount_text(n: int, unit: Seq<char>) -> Seq<char> {
    number_text(n) + " "@ + unit + plural(n)
}

/// The text of `t` seconds: the seconds alone under a minute, minutes and
/// seconds under an hour, and hours, minutes and seconds from there on.
pub open spec fn time_text(t: int) -> Seq<char> {
    let seconds = amount_text(t % 60, "second"@);
    let minutes = amount_text(t % 3600 / 60, "minute"@);
    let hours = amount_text(t / 3600, "hour"@);
    if t < 60 {
        seconds
    } else if t < 3600 {
        minutes + ", "@ + seconds
    } else {
        hours + ", "@ + minutes + ", "@ + seconds
    }
}

/// Appends the text of `n` units named `unit` to `out`.
fn push_amount(out: &mut String, n: u64, unit: &str)
    ensures
        final(out)@ == old(out)@ + amount_text(n as int, unit@),
{
    push_number(out, n);
    out.append(" ");
    out.append(unit);
    if n != 1 {
        out.append("s");
    }
    proof {
        let start = old(out)@;
        let number = number_text(n as int);
        if n != 1 {
            assert(start + number + " "@ + unit@ + "s"@ =~= start + (number + " "@ + unit@
                + "s"@));
        } else {
            assert(start + number + " "@ + unit@ =~= start + (number + " "@ + unit@
                + Seq::<char>::empty()));
        }
    }
}

/// `t` seconds told in hours, minutes and seconds, as in "1 hour, 25
/// minutes, 1 second"; the units that come before the first that counts are
/// left out.
pub fn format_time(t: u64) -> (text: String)
    ensures
        text@ == time_text(t as int),
{
    let secs = t % 60;
    let mins = t % 3600 / 60;
    let hrs = t / 3600;
    let mut text = String::new();
    if t >= 3600 {
        push_amount(&mut text, hrs, "hour");
        text.append(", ");
    }
    if t >= 60 {
        push_amount(&mut text, mins, "minute");
        text.append(", ");
    }
    push_amount(&mut text, secs, "second");
    proof {
        let seconds = amount_text(secs as int, "second"@);
        let minutes = amount_text(mins as int, "minute"@);
        let hours = amount_text(hrs as int, "hour"@);
        let none = Seq::<char>::empty();
        if t >= 3600 {
            assert(none + hours + ", "@ + minutes + ", "@ + seconds =~= hours + ", "@ + minutes
                + ", "@ + seconds);
        } else if t >= 60 {
            assert(none + minutes + ", "@ + seconds =~= minutes + ", "@ + seconds);
        } else {
            assert(none + seconds =~= seconds);
        }
    }
    text
}

} // verus!
