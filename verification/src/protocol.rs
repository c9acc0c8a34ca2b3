//! The countdown wire protocol: the status preamble, one timer line per
//! remaining second, and the closing alarm payload.
//!
//! [`Countdown`] walks the remaining-seconds values from the total down to
//! zero and hands out each rendered line in turn. The caller owns the pacing
//! (one line per second) and the sink the lines go to; everything written on
//! the wire is fixed here, byte for byte, by [`line_text`] and the payload
//! functions.
use vstd::prelude::*;

use crate::display::{append_formatted, formatted, width_class_of, width_of};
use crate::RED_THRESHOLD;

verus! {

/// The text of the terminal sequence that erases the previously written line
/// and returns the cursor to the start of the row.
pub open spec fn clear_prev_line_text() -> Seq<char> {
    "\x1b[1A\x1b[2K\x1b[1G"@
}

/// The text of the terminal sequence that switches to the warning color
/// (white on red).
pub open spec fn set_red_text() -> Seq<char> {
    "\x1b[37;41m"@
}

/// The text of the terminal sequence that resets all styling.
pub open spec fn clear_color_text() -> Seq<char> {
    "\x1b[0m"@
}

/// The fixed success preamble written once before the first timer line.
pub open spec fn status_line_text() -> Seq<char> {
    "HTTP/1.1 200 OK\r\n\r\n"@
}

/// The banner art shown when the countdown reaches zero.
pub open spec fn alarm_banner_text() -> Seq<char> {
    "
  AAA   LL        AAA   RRRRRR  MM    MM 
 AAAAA  LL       AAAAA  RR   RR MMM  MMM 
AA   AA LL      AA   AA RRRRRR  MM MM MM 
AAAAAAA LL      AAAAAAA RR  RR  MM    MM 
AA   AA LLLLLLL AA   AA RR   RR MM    MM "@
}

/// The full alarm payload: the previous line is cleared, the banner is shown
/// in the warning color, and an audible bell rings.
pub open spec fn alarm_payload_text() -> Seq<char> {
    clear_prev_line_text() + set_red_text() + alarm_banner_text() + clear_color_text()
        + "\x07\n"@
}

/// The message written instead of a countdown when the request is malformed.
pub open spec fn usage_message_text() -> Seq<char> {
    "HTTP/1.1 200 OK\r\n\r\nUsage: curl ip:8080/<hours>:<minutes>:<seconds>\r\nExample curl ip:8080/1:15:0\r\n"@
}

/// Everything written for the timer line of `sec` remaining seconds in a
/// countdown that started at `total`: a clear-previous-line sequence on every
/// line but the first, the remaining time in the width class of `total`,
/// wrapped in warning colors when `sec` is at or below [`RED_THRESHOLD`], and
/// a newline.
pub open spec fn line_text(total: u32, sec: u32) -> Seq<char> {
    let clear = if sec != total {
        clear_prev_line_text()
    } else {
        Seq::<char>::empty()
    };
    let body = formatted(sec, width_of(total));
    let styled = if sec <= RED_THRESHOLD {
        set_red_text() + body + clear_color_text()
    } else {
        body
    };
    clear + styled + seq!['\n']
}

/// The timer lines of a countdown from `total`, in the order they are
/// written: one line for each of `total`, `total - 1`, ..., `0`.
pub open spec fn all_lines(total: u32) -> Seq<Seq<char>> {
    Seq::new(total as nat + 1, |i: int| line_text(total, (total - i) as u32))
}

/// A countdown from `total` writes exactly `total + 1` timer lines before
/// the alarm payload: one for each remaining-seconds value from `total` down
/// to zero.
pub proof fn lemma_line_count(total: u32)
    ensures
        all_lines(total).len() == total as nat + 1,
{
}

/// Every line of one countdown shows its remaining time in the same width
/// class, the one fixed by the starting total alone; while the hours stay
/// below one hundred, the time text is therefore equally long on every line
/// of the countdown.
pub proof fn lemma_uniform_width(total: u32, sec: u32)
    requires
        sec <= total,
        total <= 359999,
    ensures
        formatted(sec, width_of(total)).len() == match width_of(total) {
            crate::display::WidthClass::Hours => 8int,
            crate::display::WidthClass::Minutes => 5int,
            crate::display::WidthClass::Seconds => 2int,
        },
{
    crate::display::lemma_formatted_len(sec, width_of(total));
}

/// A timer line is wrapped in the warning-color pair exactly when its
/// remaining seconds are at or below [`RED_THRESHOLD`]; above it, the line
/// carries no styling at all.
pub proof fn lemma_red_wrap(total: u32, sec: u32)
    ensures
        sec <= RED_THRESHOLD ==> line_text(total, sec) == (if sec != total {
            clear_prev_line_text()
        } else {
            Seq::<char>::empty()
        }) + (set_red_text() + formatted(sec, width_of(total)) + clear_color_text()) + seq!['\n'],
        sec > RED_THRESHOLD ==> line_text(total, sec) == (if sec != total {
            clear_prev_line_text()
        } else {
            Seq::<char>::empty()
        }) + formatted(sec, width_of(total)) + seq!['\n'],
{
}

/// The sequence that erases the previously written line.
pub fn clear_prev_line() -> (r: &'static str)
    ensures
        r@ == clear_prev_line_text(),
{
    "\x1b[1A\x1b[2K\x1b[1G"
}

/// The sequence that switches to the warning color.
pub fn set_red() -> (r: &'static str)
    ensures
        r@ == set_red_text(),
{
    "\x1b[37;41m"
}

/// The sequence that resets all styling.
pub fn clear_color() -> (r: &'static str)
    ensures
        r@ == clear_color_text(),
{
    "\x1b[0m"
}

/// The fixed success preamble.
pub fn status_line() -> (r: &'static str)
    ensures
        r@ == status_line_text(),
{
    "HTTP/1.1 200 OK\r\n\r\n"
}

/// The full alarm payload written after the last timer line.
pub fn alarm_payload() -> (r: String)
    ensures
        r@ == alarm_payload_text(),
{
    let mut s = String::from_str(clear_prev_line());
    s.append(set_red());
    s.append(
        "
  AAA   LL        AAA   RRRRRR  MM    MM 
 AAAAA  LL       AAAAA  RR   RR MMM  MMM 
AA   AA LL      AA   AA RRRRRR  MM MM MM 
AAAAAAA LL      AAAAAAA RR  RR  MM    MM 
AA   AA LLLLLLL AA   AA RR   RR MM    MM ",
    );
    s.append(clear_color());
    s.append("\x07\n");
    proof {
        assert(s@ =~= alarm_payload_text());
    }
    s
}

/// The usage message for malformed requests.
pub fn usage_message() -> (r: &'static str)
    ensures
        r@ == usage_message_text(),
{
    "HTTP/1.1 200 OK\r\n\r\nUsage: curl ip:8080/<hours>:<minutes>:<seconds>\r\nExample curl ip:8080/1:15:0\r\n"
}

/// Renders the timer line of `sec` remaining seconds in a countdown that
/// started at `total`.
pub fn render_line(total: u32, sec: u32) -> (r: String)
    requires
        sec <= total,
    ensures
        r@ == line_text(total, sec),
{
    proof {
        reveal_strlit("\n");
    }
    let mut s = String::new();
    if sec != total {
        s.append(clear_prev_line());
    }
    let red = sec <= RED_THRESHOLD;
    if red {
        s.append(set_red());
    }
    append_formatted(&mut s, sec, width_class_of(total));
    if red {
        s.append(clear_color());
    }
    s.append("\n");
    proof {
        assert(s@ =~= line_text(total, sec));
    }
    s
}

/// A countdown in progress: hands out the rendered timer lines for `total`,
/// `total - 1`, ..., `0`, one per call, in that order.
pub struct Countdown {
    total: u32,
    remaining: Option<u32>,
}

impl Countdown {
    /// The total the countdown started from, which fixes the format width of
    /// every line.
    pub closed spec fn total(&self) -> u32 {
        self.total
    }

    /// The remaining-seconds value of the next line, or `None` once the line
    /// for zero has been handed out.
    pub closed spec fn next_sec(&self) -> Option<u32> {
        self.remaining
    }

    /// The countdown only ever holds values that started at `total` and moved
    /// down.
    pub open spec fn wf(&self) -> bool {
        match self.next_sec() {
            Some(sec) => sec <= self.total(),
            None => true,
        }
    }

    /// How many timer lines are still to come.
    pub open spec fn lines_left(&self) -> nat {
        match self.next_sec() {
            Some(sec) => sec as nat + 1,
            None => 0,
        }
    }

    /// Starts a countdown of `total` seconds. Exactly `total + 1` timer lines
    /// will be handed out before the countdown reports its end.
    pub fn new(total: u32) -> (c: Countdown)
        ensures
            c.wf(),
            c.total() == total,
            c.next_sec() == Some(total),
            c.lines_left() == total as nat + 1,
    {
        Countdown { total, remaining: Some(total) }
    }

    /// Hands out the next timer line, or `None` once all `total + 1` lines
    /// are out. Every handed-out line is exactly the next entry of
    /// [`all_lines`], so each call brings `lines_left` down by one.
    pub fn next_line(&mut self) -> (r: Option<String>)
        requires
            old(self).wf(),
        ensures
            final(self).wf(),
            final(self).total() == old(self).total(),
            match r {
                Some(line) => {
                    &&& old(self).next_sec() is Some
                    &&& line@ == line_text(old(self).total(), old(self).next_sec()->0)
                    &&& line@ == all_lines(old(self).total())[old(self).total() - old(
                        self,
                    ).next_sec()->0]
                    &&& final(self).lines_left() == old(self).lines_left() - 1
                },
                None => {
                    &&& old(self).next_sec() is None
                    &&& final(self).lines_left() == 0
                },
            },
    {
        match self.remaining {
            None => None,
            Some(sec) => {
                let line = render_line(self.total, sec);
                self.remaining = if sec > 0 {
                    Some(sec - 1)
                } else {
                    None
                };
                Some(line)
            },
        }
    }
}

} // verus!
