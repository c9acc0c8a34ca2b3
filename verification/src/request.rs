//! Extracting a duration from a raw request.
//!
//! The request target is the second whitespace-delimited token of the first
//! line; the path segment after the leading `/` is a colon-separated list of
//! numbers read from the right: seconds, then minutes, then hours. Missing
//! leading components count as zero, and components to the left of the hours
//! are ignored without being looked at. Any byte sequence that is not valid
//! UTF-8, has no second token, no `/` in the target, or a consulted component
//! that is not a number, is malformed. Parsing is deliberately strict: no
//! consulted component is ever silently defaulted, only absent ones.
use vstd::prelude::*;

use vstd::slice::slice_subrange;
use vstd::utf8::valid_utf8;

use crate::encoding::utf8_ok;

verus! {

/// Line feed, the line terminator.
pub const LINE_FEED: u8 = 0x0a;

/// Carriage return, stripped from a line end and a token separator elsewhere.
pub const CARRIAGE_RETURN: u8 = 0x0d;

/// Space, the usual token separator.
pub const SPACE: u8 = 0x20;

/// `/`, the path separator.
pub const SLASH: u8 = 0x2f;

/// `:`, the separator between time components.
pub const COLON: u8 = 0x3a;

/// `+`, an accepted sign prefix on a numeric component.
pub const PLUS: u8 = 0x2b;

/// `0`, the least digit.
pub const DIGIT_ZERO: u8 = 0x30;

/// `9`, the greatest digit.
pub const DIGIT_NINE: u8 = 0x39;

/// True of the ASCII whitespace bytes that separate request-line tokens:
/// space, tab, line feed, vertical tab, form feed and carriage return.
pub open spec fn is_space(b: u8) -> bool {
    b == 0x20 || (0x09 <= b <= 0x0d)
}

/// True of an ASCII decimal digit.
pub open spec fn is_digit(b: u8) -> bool {
    DIGIT_ZERO <= b <= DIGIT_NINE
}

/// The first position at or after `from` holding `b`, or the length of `s`
/// when there is none.
pub open spec fn find_byte(s: Seq<u8>, b: u8, from: int) -> int
    decreases s.len() - from,
    when 0 <= from <= s.len()
{
    if from >= s.len() {
        s.len() as int
    } else if s[from] == b {
        from
    } else {
        find_byte(s, b, from + 1)
    }
}

/// The first position at or after `from` holding a byte that is not
/// whitespace, or the length of `s` when there is none.
pub open spec fn skip_spaces(s: Seq<u8>, from: int) -> int
    decreases s.len() - from,
    when 0 <= from <= s.len()
{
    if from >= s.len() {
        s.len() as int
    } else if is_space(s[from]) {
        skip_spaces(s, from + 1)
    } else {
        from
    }
}

/// The first position at or after `from` holding a whitespace byte, or the
/// length of `s` when there is none: the end of the token starting at `from`.
pub open spec fn skip_token(s: Seq<u8>, from: int) -> int
    decreases s.len() - from,
    when 0 <= from <= s.len()
{
    if from >= s.len() {
        s.len() as int
    } else if is_space(s[from]) {
        from
    } else {
        skip_token(s, from + 1)
    }
}

/// The last position before `end` holding `b`, or `-1` when there is none.
pub open spec fn rfind_byte(s: Seq<u8>, b: u8, end: int) -> int
    decreases end,
    when end <= s.len()
{
    if end <= 0 {
        -1
    } else if s[end - 1] == b {
        end - 1
    } else {
        rfind_byte(s, b, end - 1)
    }
}

/// The first line of a request: everything up to the first line feed, with
/// one carriage return stripped off the end.
pub open spec fn first_line(req: Seq<u8>) -> Seq<u8> {
    let e = find_byte(req, LINE_FEED, 0);
    if e > 0 && req[e - 1] == CARRIAGE_RETURN {
        req.subrange(0, e - 1)
    } else {
        req.subrange(0, e)
    }
}

/// The request target: the second whitespace-delimited token of the line, or
/// `None` when the line has fewer than two tokens.
pub open spec fn target_of(line: Seq<u8>) -> Option<Seq<u8>> {
    let first_start = skip_spaces(line, 0);
    if first_start >= line.len() {
        None
    } else {
        let second_start = skip_spaces(line, skip_token(line, first_start));
        if second_start >= line.len() {
            None
        } else {
            Some(line.subrange(second_start, skip_token(line, second_start)))
        }
    }
}

/// The path segment carrying the duration: the bytes between the first `/` of
/// the target and the next `/` or the target's end, or `None` when the target
/// has no `/` at all.
pub open spec fn segment_of(target: Seq<u8>) -> Option<Seq<u8>> {
    let open_slash = find_byte(target, SLASH, 0);
    if open_slash >= target.len() {
        None
    } else {
        Some(target.subrange(open_slash + 1, find_byte(target, SLASH, open_slash + 1)))
    }
}

/// The value of a digit byte, zero for anything else.
pub open spec fn digit_val(b: u8) -> nat {
    if is_digit(b) {
        (b - DIGIT_ZERO) as nat
    } else {
        0
    }
}

/// The number the digit bytes of `d` spell in decimal, most significant
/// first.
pub open spec fn digits_val(d: Seq<u8>) -> nat
    decreases d.len(),
{
    if d.len() == 0 {
        0
    } else {
        digits_val(d.drop_last()) * 10 + digit_val(d.last())
    }
}

/// True when every byte of `d` is a decimal digit.
pub open spec fn all_digits(d: Seq<u8>) -> bool {
    forall|i: int| 0 <= i < d.len() ==> is_digit(#[trigger] d[i])
}

/// The digits of a numeric token: everything after an optional leading `+`.
pub open spec fn digits_of(t: Seq<u8>) -> Seq<u8> {
    if t.len() > 0 && t[0] == PLUS {
        t.drop_first()
    } else {
        t
    }
}

/// True when `t` is a number a `u32` can hold: an optional `+`, then at least
/// one digit, spelling a value of at most `u32::MAX`.
pub open spec fn is_u32_token(t: Seq<u8>) -> bool {
    let d = digits_of(t);
    d.len() > 0 && all_digits(d) && digits_val(d) <= u32::MAX
}

/// The value of a numeric token.
pub open spec fn token_val(t: Seq<u8>) -> nat {
    digits_val(digits_of(t))
}

/// Where the seconds component starts: right after the last `:`, or at the
/// segment's start when there is no `:`.
pub open spec fn sec_start(seg: Seq<u8>) -> int {
    rfind_byte(seg, COLON, seg.len() as int) + 1
}

/// The seconds component: the bytes after the last `:`.
pub open spec fn sec_token(seg: Seq<u8>) -> Seq<u8> {
    seg.subrange(sec_start(seg), seg.len() as int)
}

/// True when the segment has a minutes component: some `:` precedes the
/// seconds.
pub open spec fn has_minutes(seg: Seq<u8>) -> bool {
    sec_start(seg) > 0
}

/// Where the minutes component starts.
pub open spec fn min_start(seg: Seq<u8>) -> int {
    rfind_byte(seg, COLON, sec_start(seg) - 1) + 1
}

/// The minutes component: the bytes between the second-to-last `:` (or the
/// start) and the last `:`.
pub open spec fn min_token(seg: Seq<u8>) -> Seq<u8> {
    seg.subrange(min_start(seg), sec_start(seg) - 1)
}

/// True when the segment has an hours component: some `:` precedes the
/// minutes.
pub open spec fn has_hours(seg: Seq<u8>) -> bool {
    has_minutes(seg) && min_start(seg) > 0
}

/// Where the hours component starts.
pub open spec fn hours_start(seg: Seq<u8>) -> int {
    rfind_byte(seg, COLON, min_start(seg) - 1) + 1
}

/// The hours component: the bytes between the third-to-last `:` (or the
/// start) and the second-to-last `:`. Anything left of it is ignored.
pub open spec fn hours_token(seg: Seq<u8>) -> Seq<u8> {
    seg.subrange(hours_start(seg), min_start(seg) - 1)
}

/// The time components a path segment spells, read from the right: seconds,
/// then minutes, then hours, each defaulting to zero when missing. `None`
/// when a consulted component is not a number a `u32` can hold.
pub open spec fn parse_segment(seg: Seq<u8>) -> Option<(u32, u32, u32)> {
    if !is_u32_token(sec_token(seg)) {
        None
    } else {
        let s = token_val(sec_token(seg)) as u32;
        if !has_minutes(seg) {
            Some((0, 0, s))
        } else if !is_u32_token(min_token(seg)) {
            None
        } else {
            let m = token_val(min_token(seg)) as u32;
            if !has_hours(seg) {
                Some((0, m, s))
            } else if !is_u32_token(hours_token(seg)) {
                None
            } else {
                Some((token_val(hours_token(seg)) as u32, m, s))
            }
        }
    }
}

/// The `(hours, minutes, seconds)` triple a raw request asks for, or `None`
/// when the request is malformed: not valid UTF-8, empty, without a second
/// whitespace-delimited token on its first line, without a `/` in that token,
/// or with a consulted time component that is not a number.
pub open spec fn parse_request_spec(req: Seq<u8>) -> Option<(u32, u32, u32)> {
    if !valid_utf8(req) || req.len() == 0 {
        None
    } else {
        match target_of(first_line(req)) {
            None => None,
            Some(target) => match segment_of(target) {
                None => None,
                Some(seg) => parse_segment(seg),
            },
        }
    }
}

proof fn lemma_find_byte_at(s: Seq<u8>, b: u8, from: int, i: int)
    requires
        0 <= from <= i <= s.len(),
        forall|j: int| from <= j < i ==> s[j] != b,
        i < s.len() ==> s[i] == b,
    ensures
        find_byte(s, b, from) == i,
    decreases i - from,
{
    if from < i {
        lemma_find_byte_at(s, b, from + 1, i);
    }
}

proof fn lemma_skip_spaces_at(s: Seq<u8>, from: int, i: int)
    requires
        0 <= from <= i <= s.len(),
        forall|j: int| from <= j < i ==> is_space(s[j]),
        i < s.len() ==> !is_space(s[i]),
    ensures
        skip_spaces(s, from) == i,
    decreases i - from,
{
    if from < i {
        lemma_skip_spaces_at(s, from + 1, i);
    }
}

proof fn lemma_skip_token_at(s: Seq<u8>, from: int, i: int)
    requires
        0 <= from <= i <= s.len(),
        forall|j: int| from <= j < i ==> !is_space(s[j]),
        i < s.len() ==> is_space(s[i]),
    ensures
        skip_token(s, from) == i,
    decreases i - from,
{
    if from < i {
        lemma_skip_token_at(s, from + 1, i);
    }
}

proof fn lemma_rfind_byte_at(s: Seq<u8>, b: u8, end: int, i: int)
    requires
        -1 <= i < end <= s.len(),
        forall|j: int| i < j < end ==> s[j] != b,
        i >= 0 ==> s[i] == b,
    ensures
        rfind_byte(s, b, end) == i,
    decreases end,
{
    if end > i + 1 {
        lemma_rfind_byte_at(s, b, end - 1, i);
    }
}

/// Dropping digits off the right of a number never makes it larger.
proof fn lemma_digits_val_prefix(d: Seq<u8>, m: int)
    requires
        0 <= m <= d.len(),
    ensures
        digits_val(d.take(m)) <= digits_val(d),
    decreases d.len(),
{
    if m < d.len() {
        lemma_digits_val_prefix(d.drop_last(), m);
        assert(d.drop_last().take(m) =~= d.take(m));
    } else {
        assert(d.take(m) =~= d);
    }
}

/// A numeric token holds no colon: every byte is a digit or a leading `+`.
proof fn lemma_token_no_colon(t: Seq<u8>)
    requires
        is_u32_token(t),
    ensures
        forall|i: int| 0 <= i < t.len() ==> t[i] != COLON,
{
    let d = digits_of(t);
    assert forall|i: int| 0 <= i < t.len() implies t[i] != COLON by {
        if t[0] == PLUS {
            if i > 0 {
                assert(d[i - 1] == t[i]);
                assert(is_digit(d[i - 1]));
            }
        } else {
            assert(d[i] == t[i]);
            assert(is_digit(d[i]));
        }
    }
}

/// A path segment `h:m:s` made of three numeric tokens parses to exactly
/// those three components: hours, minutes, seconds.
pub proof fn lemma_parse_three(h: Seq<u8>, m: Seq<u8>, s: Seq<u8>)
    requires
        is_u32_token(h),
        is_u32_token(m),
        is_u32_token(s),
    ensures
        parse_segment(h + seq![COLON] + m + seq![COLON] + s) == Some(
            (token_val(h) as u32, token_val(m) as u32, token_val(s) as u32),
        ),
{
    let seg = h + seq![COLON] + m + seq![COLON] + s;
    let p1 = h.len() as int;
    let p2: int = h.len() as int + 1 + m.len() as int;
    lemma_token_no_colon(h);
    lemma_token_no_colon(m);
    lemma_token_no_colon(s);
    assert forall|j: int| p2 < j < seg.len() implies seg[j] != COLON by {
        assert(seg[j] == s[j - p2 - 1]);
    }
    lemma_rfind_byte_at(seg, COLON, seg.len() as int, p2);
    assert(sec_token(seg) =~= s);
    assert forall|j: int| p1 < j < p2 implies seg[j] != COLON by {
        assert(seg[j] == m[j - p1 - 1]);
    }
    lemma_rfind_byte_at(seg, COLON, p2, p1);
    assert(min_token(seg) =~= m);
    assert forall|j: int| 0 <= j < p1 implies seg[j] != COLON by {
        assert(seg[j] == h[j]);
    }
    lemma_rfind_byte_at(seg, COLON, p1, -1);
    assert(hours_token(seg) =~= h);
}

/// A path segment `m:s` made of two numeric tokens parses to zero hours and
/// exactly those minutes and seconds.
pub proof fn lemma_parse_two(m: Seq<u8>, s: Seq<u8>)
    requires
        is_u32_token(m),
        is_u32_token(s),
    ensures
        parse_segment(m + seq![COLON] + s) == Some(
            (0u32, token_val(m) as u32, token_val(s) as u32),
        ),
{
    let seg = m + seq![COLON] + s;
    let p1 = m.len() as int;
    lemma_token_no_colon(m);
    lemma_token_no_colon(s);
    assert forall|j: int| p1 < j < seg.len() implies seg[j] != COLON by {
        assert(seg[j] == s[j - p1 - 1]);
    }
    lemma_rfind_byte_at(seg, COLON, seg.len() as int, p1);
    assert(sec_token(seg) =~= s);
    assert forall|j: int| 0 <= j < p1 implies seg[j] != COLON by {
        assert(seg[j] == m[j]);
    }
    lemma_rfind_byte_at(seg, COLON, p1, -1);
    assert(min_token(seg) =~= m);
}

/// A path segment that is a single numeric token parses to zero hours, zero
/// minutes and exactly those seconds.
pub proof fn lemma_parse_one(s: Seq<u8>)
    requires
        is_u32_token(s),
    ensures
        parse_segment(s) == Some((0u32, 0u32, token_val(s) as u32)),
{
    lemma_token_no_colon(s);
    lemma_rfind_byte_at(s, COLON, s.len() as int, -1);
    assert(sec_token(s) =~= s);
}

/// Components to the left of the hours are dropped without being looked at:
/// whatever `extra` holds, `extra:h:m:s` parses as `h:m:s` does.
pub proof fn lemma_extra_components_ignored(extra: Seq<u8>, h: Seq<u8>, m: Seq<u8>, s: Seq<u8>)
    requires
        is_u32_token(h),
        is_u32_token(m),
        is_u32_token(s),
    ensures
        parse_segment(extra + seq![COLON] + h + seq![COLON] + m + seq![COLON] + s) == Some(
            (token_val(h) as u32, token_val(m) as u32, token_val(s) as u32),
        ),
{
    let seg = extra + seq![COLON] + h + seq![COLON] + m + seq![COLON] + s;
    let p0 = extra.len() as int;
    let p1: int = extra.len() as int + 1 + h.len() as int;
    let p2: int = p1 + 1 + m.len() as int;
    lemma_token_no_colon(h);
    lemma_token_no_colon(m);
    lemma_token_no_colon(s);
    assert forall|j: int| p2 < j < seg.len() implies seg[j] != COLON by {
        assert(seg[j] == s[j - p2 - 1]);
    }
    lemma_rfind_byte_at(seg, COLON, seg.len() as int, p2);
    assert(sec_token(seg) =~= s);
    assert forall|j: int| p1 < j < p2 implies seg[j] != COLON by {
        assert(seg[j] == m[j - p1 - 1]);
    }
    lemma_rfind_byte_at(seg, COLON, p2, p1);
    assert(min_token(seg) =~= m);
    assert forall|j: int| p0 < j < p1 implies seg[j] != COLON by {
        assert(seg[j] == h[j - p0 - 1]);
    }
    lemma_rfind_byte_at(seg, COLON, p1, p0);
    assert(hours_token(seg) =~= h);
}

/// A well-formed request line delivers its path segment to the component
/// parser untouched: for any method token, any segment free of whitespace
/// and slashes, and any version token, the request
/// `<method> /<segment> <version>\r\n` parses exactly as the segment does.
pub proof fn lemma_parse_well_formed_request(method: Seq<u8>, seg: Seq<u8>, version: Seq<u8>)
    requires
        method.len() > 0,
        forall|i: int| 0 <= i < method.len() ==> !is_space(#[trigger] method[i]) && method[i]
            < 0x80,
        forall|i: int| 0 <= i < seg.len() ==> !is_space(#[trigger] seg[i]) && seg[i] != SLASH
            && seg[i] < 0x80,
        forall|i: int| 0 <= i < version.len() ==> #[trigger] version[i] != LINE_FEED && version[i]
            < 0x80,
    ensures
        parse_request_spec(
            method + seq![SPACE] + seq![SLASH] + seg + seq![SPACE] + version + seq![
                CARRIAGE_RETURN,
                LINE_FEED,
            ],
        ) == parse_segment(seg),
{
    let req = method + seq![SPACE] + seq![SLASH] + seg + seq![SPACE] + version + seq![
        CARRIAGE_RETURN,
        LINE_FEED,
    ];
    let m = method.len() as int;
    let sl = seg.len() as int;
    let vl = version.len() as int;
    assert(req.len() == m + sl + vl + 5);
    assert forall|j: int| 0 <= j < req.len() implies #[trigger] req[j] < 0x80 by {
        if j < m {
            assert(req[j] == method[j]);
        } else if m + 2 <= j < m + 2 + sl {
            assert(req[j] == seg[j - m - 2]);
        } else if m + 3 + sl <= j < m + 3 + sl + vl {
            assert(req[j] == version[j - m - 3 - sl]);
        }
    }
    crate::encoding::lemma_ascii_valid_utf8(req);
    // The line feed closes the first line; the carriage return before it is
    // stripped.
    assert forall|j: int| 0 <= j < req.len() - 1 implies req[j] != LINE_FEED by {
        if j < m {
            assert(req[j] == method[j]);
            assert(!is_space(method[j]));
        } else if m + 2 <= j < m + 2 + sl {
            assert(req[j] == seg[j - m - 2]);
            assert(!is_space(seg[j - m - 2]));
        } else if m + 3 + sl <= j < m + 3 + sl + vl {
            assert(req[j] == version[j - m - 3 - sl]);
        }
    }
    lemma_find_byte_at(req, LINE_FEED, 0, req.len() - 1);
    assert(req[req.len() - 2] == CARRIAGE_RETURN);
    let line = first_line(req);
    assert(line =~= method + seq![SPACE] + seq![SLASH] + seg + seq![SPACE] + version);
    assert(line.len() == m + sl + vl + 3);
    // The method is the first token, the target the second.
    assert(line[0] == method[0]);
    lemma_skip_spaces_at(line, 0, 0);
    assert forall|j: int| 0 <= j < m implies !is_space(line[j]) by {
        assert(line[j] == method[j]);
    }
    assert(line[m] == SPACE);
    lemma_skip_token_at(line, 0, m);
    assert(line[m + 1] == SLASH);
    lemma_skip_spaces_at(line, m, m + 1);
    assert forall|j: int| m + 1 <= j < m + 2 + sl implies !is_space(line[j]) by {
        if j > m + 1 {
            assert(line[j] == seg[j - m - 2]);
        }
    }
    assert(line[m + 2 + sl] == SPACE);
    lemma_skip_token_at(line, m + 1, m + 2 + sl);
    let target = line.subrange(m + 1, m + 2 + sl);
    assert(target_of(line) == Some(target));
    assert(target =~= seq![SLASH] + seg);
    // The segment sits between the leading slash and the target's end.
    assert(target[0] == SLASH);
    lemma_find_byte_at(target, SLASH, 0, 0);
    assert forall|j: int| 1 <= j < target.len() implies target[j] != SLASH by {
        assert(target[j] == seg[j - 1]);
    }
    lemma_find_byte_at(target, SLASH, 1, target.len() as int);
    assert(segment_of(target) == Some(target.subrange(1, target.len() as int)));
    assert(target.subrange(1, target.len() as int) =~= seg);
}

/// A well-formed request whose path is `h:m:s` with three numeric components
/// parses to exactly those hours, minutes and seconds.
pub proof fn lemma_parse_request_three(
    method: Seq<u8>,
    h: Seq<u8>,
    m: Seq<u8>,
    s: Seq<u8>,
    version: Seq<u8>,
)
    requires
        method.len() > 0,
        forall|i: int| 0 <= i < method.len() ==> !is_space(#[trigger] method[i]) && method[i]
            < 0x80,
        forall|i: int| 0 <= i < version.len() ==> #[trigger] version[i] != LINE_FEED && version[i]
            < 0x80,
        is_u32_token(h),
        is_u32_token(m),
        is_u32_token(s),
    ensures
        parse_request_spec(
            method + seq![SPACE] + seq![SLASH] + (h + seq![COLON] + m + seq![COLON] + s) + seq![
                SPACE,
            ] + version + seq![CARRIAGE_RETURN, LINE_FEED],
        ) == Some((token_val(h) as u32, token_val(m) as u32, token_val(s) as u32)),
{
    let seg = h + seq![COLON] + m + seq![COLON] + s;
    lemma_token_no_colon(h);
    lemma_token_no_colon(m);
    lemma_token_no_colon(s);
    assert forall|i: int| 0 <= i < seg.len() implies !is_space(#[trigger] seg[i]) && seg[i]
        != SLASH && seg[i] < 0x80 by {
        let p1 = h.len() as int;
        let p2 = h.len() as int + 1 + m.len() as int;
        if i < p1 {
            assert(seg[i] == h[i]);
            lemma_token_byte_ranges(h, i);
        } else if i == p1 || i == p2 {
            assert(seg[i] == COLON);
        } else if i < p2 {
            assert(seg[i] == m[i - p1 - 1]);
            lemma_token_byte_ranges(m, i - p1 - 1);
        } else {
            assert(seg[i] == s[i - p2 - 1]);
            lemma_token_byte_ranges(s, i - p2 - 1);
        }
    }
    lemma_parse_well_formed_request(method, seg, version);
    lemma_parse_three(h, m, s);
}

/// Every byte of a numeric token is a digit or the leading `+`: printable
/// ASCII, neither whitespace nor a slash.
proof fn lemma_token_byte_ranges(t: Seq<u8>, i: int)
    requires
        is_u32_token(t),
        0 <= i < t.len(),
    ensures
        !is_space(t[i]),
        t[i] != SLASH,
        t[i] < 0x80,
{
    let d = digits_of(t);
    if t[0] == PLUS {
        if i > 0 {
            assert(d[i - 1] == t[i]);
            assert(is_digit(d[i - 1]));
        }
    } else {
        assert(d[i] == t[i]);
        assert(is_digit(d[i]));
    }
}

/// Each way a request can be malformed ends the parse with `None`: input
/// that is not valid UTF-8 or is empty, a first line without a second
/// whitespace-delimited token, a target without a `/`, and a consulted
/// component that is not a number.
pub proof fn lemma_malformed_is_rejected(req: Seq<u8>)
    ensures
        !valid_utf8(req) ==> parse_request_spec(req) is None,
        req.len() == 0 ==> parse_request_spec(req) is None,
        target_of(first_line(req)) is None ==> parse_request_spec(req) is None,
        (target_of(first_line(req)) matches Some(t) && segment_of(t) is None)
            ==> parse_request_spec(req) is None,
        (target_of(first_line(req)) matches Some(t) && segment_of(t) matches Some(seg)
            && !is_u32_token(sec_token(seg))) ==> parse_request_spec(req) is None,
{
}

fn find_byte_from(s: &[u8], b: u8, from: usize) -> (r: usize)
    requires
        from <= s@.len(),
    ensures
        r == find_byte(s@, b, from as int),
        from <= r <= s@.len(),
{
    let mut i: usize = from;
    while i < s.len()
        invariant
            from <= i <= s@.len(),
            forall|j: int| from <= j < i ==> s@[j] != b,
        decreases s@.len() - i,
    {
        if s[i] == b {
            proof {
                lemma_find_byte_at(s@, b, from as int, i as int);
            }
            return i;
        }
        i += 1;
    }
    proof {
        lemma_find_byte_at(s@, b, from as int, i as int);
    }
    i
}

fn is_space_byte(b: u8) -> (r: bool)
    ensures
        r == is_space(b),
{
    b == 0x20 || (0x09 <= b && b <= 0x0d)
}

fn skip_spaces_from(s: &[u8], from: usize) -> (r: usize)
    requires
        from <= s@.len(),
    ensures
        r == skip_spaces(s@, from as int),
        from <= r <= s@.len(),
{
    let mut i: usize = from;
    while i < s.len()
        invariant
            from <= i <= s@.len(),
            forall|j: int| from <= j < i ==> is_space(s@[j]),
        decreases s@.len() - i,
    {
        if !is_space_byte(s[i]) {
            proof {
                lemma_skip_spaces_at(s@, from as int, i as int);
            }
            return i;
        }
        i += 1;
    }
    proof {
        lemma_skip_spaces_at(s@, from as int, i as int);
    }
    i
}

fn skip_token_from(s: &[u8], from: usize) -> (r: usize)
    requires
        from <= s@.len(),
    ensures
        r == skip_token(s@, from as int),
        from <= r <= s@.len(),
{
    let mut i: usize = from;
    while i < s.len()
        invariant
            from <= i <= s@.len(),
            forall|j: int| from <= j < i ==> !is_space(s@[j]),
        decreases s@.len() - i,
    {
        if is_space_byte(s[i]) {
            proof {
                lemma_skip_token_at(s@, from as int, i as int);
            }
            return i;
        }
        i += 1;
    }
    proof {
        lemma_skip_token_at(s@, from as int, i as int);
    }
    i
}

/// The start of the rightmost component before `end`: one past the last `b`
/// before `end`, or zero when there is none.
fn rfind_byte_before(s: &[u8], b: u8, end: usize) -> (r: usize)
    requires
        end <= s@.len(),
    ensures
        r == rfind_byte(s@, b, end as int) + 1,
        r <= end,
{
    let mut i: usize = end;
    while i > 0
        invariant
            i <= end <= s@.len(),
            forall|j: int| i <= j < end ==> s@[j] != b,
        decreases i,
    {
        if s[i - 1] == b {
            proof {
                lemma_rfind_byte_at(s@, b, end as int, i - 1);
            }
            return i;
        }
        i -= 1;
    }
    proof {
        lemma_rfind_byte_at(s@, b, end as int, -1);
    }
    0
}

/// Reads a numeric token as a `u32`: an optional `+`, then at least one
/// digit. `None` exactly when the token is not such a number or its value
/// does not fit.
fn parse_u32_token(t: &[u8]) -> (r: Option<u32>)
    ensures
        r is Some <==> is_u32_token(t@),
        r is Some ==> r->0 as nat == token_val(t@),
{
    let digits_from: usize = if t.len() > 0 && t[0] == PLUS {
        1
    } else {
        0
    };
    let ghost digits: Seq<u8> = digits_of(t@);
    proof {
        assert(digits =~= t@.subrange(digits_from as int, t@.len() as int));
    }
    if digits_from >= t.len() {
        return None;
    }
    let mut val: u32 = 0;
    let mut i: usize = digits_from;
    while i < t.len()
        invariant
            digits_from <= i <= t@.len(),
            digits == digits_of(t@),
            digits == t@.subrange(digits_from as int, t@.len() as int),
            forall|j: int| digits_from <= j < i ==> is_digit(#[trigger] t@[j]),
            val as nat == digits_val(t@.subrange(digits_from as int, i as int)),
        decreases t@.len() - i,
    {
        let b = t[i];
        if b < DIGIT_ZERO || b > DIGIT_NINE {
            proof {
                assert(digits[i - digits_from] == t@[i as int]);
                assert(!all_digits(digits));
            }
            return None;
        }
        let d: u32 = (b - DIGIT_ZERO) as u32;
        proof {
            assert(t@.subrange(digits_from as int, i + 1).drop_last() =~= t@.subrange(
                digits_from as int,
                i as int,
            ));
            assert(t@.subrange(digits_from as int, i + 1).last() == t@[i as int]);
        }
        if val > 429496729 || (val == 429496729 && d > 5) {
            // The value read so far already overflows a `u32`, and more
            // digits can only grow it.
            proof {
                assert(digits_val(t@.subrange(digits_from as int, i + 1)) > u32::MAX);
                if all_digits(digits) {
                    lemma_digits_val_prefix(digits, i + 1 - digits_from);
                    assert(digits.take(i + 1 - digits_from) =~= t@.subrange(
                        digits_from as int,
                        i + 1,
                    ));
                }
            }
            return None;
        }
        val = val * 10 + d;
        i += 1;
    }
    proof {
        assert(digits =~= t@.subrange(digits_from as int, t@.len() as int));
    }
    Some(val)
}

/// Reads the time components out of a path segment, from the right: seconds,
/// then minutes, then hours, missing ones counting as zero.
fn parse_segment_bytes(seg: &[u8]) -> (r: Option<(u32, u32, u32)>)
    ensures
        r == parse_segment(seg@),
{
    let s_start = rfind_byte_before(seg, COLON, seg.len());
    let s_tok = slice_subrange(seg, s_start, seg.len());
    let seconds = match parse_u32_token(s_tok) {
        None => {
            return None;
        },
        Some(v) => v,
    };
    if s_start == 0 {
        return Some((0, 0, seconds));
    }
    let m_start = rfind_byte_before(seg, COLON, s_start - 1);
    let m_tok = slice_subrange(seg, m_start, s_start - 1);
    let minutes = match parse_u32_token(m_tok) {
        None => {
            return None;
        },
        Some(v) => v,
    };
    if m_start == 0 {
        return Some((0, minutes, seconds));
    }
    let h_start = rfind_byte_before(seg, COLON, m_start - 1);
    let h_tok = slice_subrange(seg, h_start, m_start - 1);
    match parse_u32_token(h_tok) {
        None => None,
        Some(hours) => Some((hours, minutes, seconds)),
    }
}

/// Reads the `(hours, minutes, seconds)` duration a raw request asks for.
/// `None` exactly when the request is malformed as [`parse_request_spec`]
/// lays out; no input makes this function panic.
pub fn parse_request(request: &[u8]) -> (r: Option<(u32, u32, u32)>)
    ensures
        r == parse_request_spec(request@),
{
    if !utf8_ok(request) {
        return None;
    }
    if request.len() == 0 {
        return None;
    }
    let line_end = find_byte_from(request, LINE_FEED, 0);
    let line: &[u8] = if line_end > 0 && request[line_end - 1] == CARRIAGE_RETURN {
        slice_subrange(request, 0, line_end - 1)
    } else {
        slice_subrange(request, 0, line_end)
    };
    proof {
        assert(line@ == first_line(request@));
    }
    let first_start = skip_spaces_from(line, 0);
    if first_start >= line.len() {
        return None;
    }
    let second_start = skip_spaces_from(line, skip_token_from(line, first_start));
    if second_start >= line.len() {
        return None;
    }
    let target: &[u8] = slice_subrange(line, second_start, skip_token_from(line, second_start));
    proof {
        assert(target_of(line@) == Some(target@));
    }
    let open_slash = find_byte_from(target, SLASH, 0);
    if open_slash >= target.len() {
        return None;
    }
    let seg: &[u8] = slice_subrange(
        target,
        open_slash + 1,
        find_byte_from(target, SLASH, open_slash + 1),
    );
    proof {
        assert(segment_of(target@) == Some(seg@));
    }
    parse_segment_bytes(seg)
}

} // verus!
