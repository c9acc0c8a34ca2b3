//! Decimal rendering of remaining-seconds values.
//!
//! A countdown line shows the remaining time as `hh:mm:ss`, `mm:ss` or `ss`,
//! every unit zero-padded to at least two digits. Which units appear is a
//! property of the whole countdown, not of a single line: see
//! [`WidthClass`] and [`crate::protocol`].
use vstd::prelude::*;

verus! {

/// The decimal digit character for a value below ten.
pub open spec fn digit_char(d: nat) -> char {
    if d == 0 {
        '0'
    } else if d == 1 {
        '1'
    } else if d == 2 {
        '2'
    } else if d == 3 {
        '3'
    } else if d == 4 {
        '4'
    } else if d == 5 {
        '5'
    } else if d == 6 {
        '6'
    } else if d == 7 {
        '7'
    } else if d == 8 {
        '8'
    } else {
        '9'
    }
}

/// The decimal representation of `n`, most significant digit first, with no
/// leading zeros (a lone `0` for zero itself).
pub open spec fn dec_rep(n: nat) -> Seq<char>
    decreases n,
{
    if n < 10 {
        seq![digit_char(n)]
    } else {
        dec_rep(n / 10).push(digit_char(n % 10))
    }
}

/// The decimal representation of `n`, zero-padded on the left to at least two
/// digits.
pub open spec fn padded2(n: nat) -> Seq<char> {
    if n < 10 {
        seq!['0'] + dec_rep(n)
    } else {
        dec_rep(n)
    }
}

/// Which units a formatted time value shows.
#[derive(Clone, Copy, PartialEq, Eq, Structural)]
pub enum WidthClass {
    /// `hh:mm:ss`
    Hours,
    /// `mm:ss`
    Minutes,
    /// `ss`
    Seconds,
}

/// The width class a total of `sec` seconds calls for: hours appear from one
/// hour up, minutes from one minute up.
pub open spec fn width_of(sec: u32) -> WidthClass {
    if sec >= 3600 {
        WidthClass::Hours
    } else if sec >= 60 {
        WidthClass::Minutes
    } else {
        WidthClass::Seconds
    }
}

/// `sec` seconds rendered in the given width class: the hours field counts
/// whole hours, minutes and seconds wrap at sixty, and every field is
/// zero-padded to at least two digits.
pub open spec fn formatted(sec: u32, width: WidthClass) -> Seq<char> {
    match width {
        WidthClass::Hours => padded2((sec / 3600) as nat) + seq![':'] + padded2(
            ((sec / 60) % 60) as nat,
        ) + seq![':'] + padded2((sec % 60) as nat),
        WidthClass::Minutes => padded2(((sec / 60) % 60) as nat) + seq![':'] + padded2(
            (sec % 60) as nat,
        ),
        WidthClass::Seconds => padded2((sec % 60) as nat),
    }
}

/// Selects the width class for a total of `sec` seconds.
pub fn width_class_of(sec: u32) -> (w: WidthClass)
    ensures
        w == width_of(sec),
{
    if sec >= 3600 {
        WidthClass::Hours
    } else if sec >= 60 {
        WidthClass::Minutes
    } else {
        WidthClass::Seconds
    }
}

/// The one-character string for a decimal digit.
fn digit_str(d: u32) -> (r: &'static str)
    requires
        d < 10,
    ensures
        r@ =~= seq![digit_char(d as nat)],
{
    proof {
        reveal_strlit("0");
        reveal_strlit("1");
        reveal_strlit("2");
        reveal_strlit("3");
        reveal_strlit("4");
        reveal_strlit("5");
        reveal_strlit("6");
        reveal_strlit("7");
        reveal_strlit("8");
        reveal_strlit("9");
    }
    if d == 0 {
        "0"
    } else if d == 1 {
        "1"
    } else if d == 2 {
        "2"
    } else if d == 3 {
        "3"
    } else if d == 4 {
        "4"
    } else if d == 5 {
        "5"
    } else if d == 6 {
        "6"
    } else if d == 7 {
        "7"
    } else if d == 8 {
        "8"
    } else {
        "9"
    }
}

/// Appends the decimal representation of `n` to `out`.
fn append_dec(out: &mut String, n: u32)
    ensures
        final(out)@ == old(out)@ + dec_rep(n as nat),
    decreases n,
{
    if n >= 10 {
        append_dec(out, n / 10);
        out.append(digit_str(n % 10));
        proof {
            assert(out@ =~= old(out)@ + dec_rep(n as nat));
        }
    } else {
        out.append(digit_str(n));
        proof {
            assert(out@ =~= old(out)@ + dec_rep(n as nat));
        }
    }
}

/// Appends `n` zero-padded to at least two decimal digits.
fn append_padded2(out: &mut String, n: u32)
    ensures
        final(out)@ == old(out)@ + padded2(n as nat),
{
    if n < 10 {
        out.append(digit_str(0));
    }
    append_dec(out, n);
    proof {
        assert(out@ =~= old(out)@ + padded2(n as nat));
    }
}

/// Appends `sec` seconds rendered in the width class `width`.
pub fn append_formatted(out: &mut String, sec: u32, width: WidthClass)
    ensures
        final(out)@ == old(out)@ + formatted(sec, width),
{
    proof {
        reveal_strlit(":");
    }
    match width {
        WidthClass::Hours => {
            append_padded2(out, sec / 3600);
            out.append(":");
            append_padded2(out, (sec / 60) % 60);
            out.append(":");
            append_padded2(out, sec % 60);
        },
        WidthClass::Minutes => {
            append_padded2(out, (sec / 60) % 60);
            out.append(":");
            append_padded2(out, sec % 60);
        },
        WidthClass::Seconds => {
            append_padded2(out, sec % 60);
        },
    }
    proof {
        assert(out@ =~= old(out)@ + formatted(sec, width));
    }
}

/// A value below one hundred always fills exactly two digits.
pub proof fn lemma_padded2_len(n: nat)
    requires
        n < 100,
    ensures
        padded2(n).len() == 2,
{
    if n >= 10 {
        assert(dec_rep(n) == dec_rep(n / 10).push(digit_char(n % 10)));
        assert(dec_rep(n / 10).len() == 1);
    }
}

/// The length of a formatted time is fixed by the width class alone, as long
/// as the hours stay below one hundred: eight characters with hours, five
/// with minutes, two with seconds only.
pub proof fn lemma_formatted_len(sec: u32, width: WidthClass)
    requires
        sec / 3600 < 100,
    ensures
        formatted(sec, width).len() == match width {
            WidthClass::Hours => 8int,
            WidthClass::Minutes => 5int,
            WidthClass::Seconds => 2int,
        },
{
    lemma_padded2_len((sec / 3600) as nat);
    lemma_padded2_len(((sec / 60) % 60) as nat);
    lemma_padded2_len((sec % 60) as nat);
}

/// Renders `sec` seconds with the width class that `sec` itself calls for:
/// hours and minutes fields appear only when `sec` reaches them.
pub fn format_time(sec: u32) -> (s: String)
    ensures
        s@ == formatted(sec, width_of(sec)),
{
    let mut s = String::new();
    let width = width_class_of(sec);
    append_formatted(&mut s, sec, width);
    proof {
        assert(s@ =~= formatted(sec, width_of(sec)));
    }
    s
}

} // verus!
