use vstd::prelude::*;
use vstd::string::StrSliceExecFns;

use crate::frames::{digits_value, is_frame_number, number_digits, parse_frame_number};

verus! {

/// Microseconds in one second.
pub const MICROS_PER_SECOND: u64 = 1_000_000;

/// `round(1_000_000 / fps)` with halves rounded up, for `fps > 0`.
pub open spec fn frametime_of_fps(fps: u64) -> nat {
    ((2 * MICROS_PER_SECOND + fps) / (2 * fps)) as nat
}

/// The frame interval, in microseconds, that a metadata record gives: its
/// `frametime` when nonzero, else one derived from the legacy `fps` when
/// that is nonzero, else none.
pub open spec fn effective_frametime_spec(frametime: u64, fps: u64) -> Option<nat> {
    if frametime != 0 {
        Some(frametime as nat)
    } else if fps != 0 {
        Some(frametime_of_fps(fps))
    } else {
        None
    }
}

/// The frame interval of a metadata record: `frametime` verbatim when it is
/// nonzero, else `round(1_000_000 / fps)`, else `None` when both are zero.
pub fn effective_frametime(frametime: u64, fps: u64) -> (r: Option<u64>)
    ensures
        r matches Some(v) ==> effective_frametime_spec(frametime, fps) == Some(v as nat),
        r is None <==> effective_frametime_spec(frametime, fps) is None,
{
    if frametime != 0 {
        Some(frametime)
    } else if fps != 0 {
        let two_fps = 2 * (fps as u128);
        proof {
            let f: int = fps as int;
            let x: int = 2 * 1_000_000 + f;
            let t: int = two_fps as int;
            let q: int = x / t;
            assert(t * q <= x) by (nonlinear_arith)
                requires t >= 2, x >= 0, q == x / t;
            assert(q <= 1_000_001) by (nonlinear_arith)
                requires t == 2 * f, f >= 1, x == 2_000_000 + f, t * q <= x;
        }
        Some(((2 * (MICROS_PER_SECOND as u128) + fps as u128) / two_fps) as u64)
    } else {
        None
    }
}

/// Timing record stored in a container.
#[derive(Debug, Clone, PartialEq, Eq)]
pub struct Metadata {
    /// Microseconds per frame; authoritative.
    pub frametime: u64,
    /// Frames per second, kept for older readers.
    pub fps: u64,
    /// Version of the format writer.
    pub format_version: String,
}

impl Metadata {
    /// A record for a stream at `fps` frames per second, `frametime`
    /// microseconds apart, written by format version 0.1.0.
    pub fn new(fps: u64, frametime: u64) -> (r: Self)
        ensures
            r.fps == fps,
            r.frametime == frametime,
            r.format_version@ == seq!['0', '.', '1', '.', '0'],
    {
        let v = "0.1.0";
        proof {
            reveal_strlit("0.1.0");
            assert(v@ =~= seq!['0', '.', '1', '.', '0']);
        }
        Metadata { frametime, fps, format_version: String::from_str(v) }
    }
}

/// `(a - b, 0)` when `a >= b`, else `(0, b - a)`: what is left of `a` after
/// `b`, and by how much `b` overran it.
pub fn remaining_sub(a: u64, b: u64) -> (r: (u64, u64))
    ensures
        a >= b ==> r == (((a - b) as u64, 0u64)),
        a < b ==> r == ((0u64, (b - a) as u64)),
{
    if a >= b {
        (a - b, 0)
    } else {
        (0, max_sub(a, b))
    }
}

/// `|a - b|`.
pub fn max_sub(a: u64, b: u64) -> (r: u64)
    ensures
        r == if a >= b { a - b } else { b - a },
{
    if a >= b { a - b } else { b - a }
}

/// Whether a frame is rendered, and the backlog afterwards: a backlog above
/// one interval skips the frame and pays one interval off.
pub open spec fn pace_begin(delay: u64, behind: u64) -> (bool, u64) {
    if behind > delay {
        (false, (behind - delay) as u64)
    } else {
        (true, behind)
    }
}

/// After a rendered frame that took `elapsed` microseconds: how long to sleep, and the
/// backlog grown by any overrun (saturating at the largest value).
pub open spec fn pace_end(delay: u64, behind: u64, elapsed: u64) -> (u64, u64) {
    if elapsed <= delay {
        ((delay - elapsed) as u64, behind)
    } else {
        let grown = behind + (elapsed - delay);
        (0, if grown > u64::MAX { u64::MAX } else { grown as u64 })
    }
}

/// Whether every frame of a run is rendered, frame `i` taking `elapsed[i]`.
pub open spec fn renders_all(delay: u64, behind: u64, elapsed: Seq<u64>) -> bool
    decreases elapsed.len(),
{
    if elapsed.len() == 0 {
        true
    } else {
        let (render, b1) = pace_begin(delay, behind);
        render && renders_all(delay, pace_end(delay, b1, elapsed[0]).1, elapsed.drop_first())
    }
}

/// Paces playback at a fixed interval, tracking how far behind it runs.
#[derive(Debug, Clone, Copy, PartialEq, Eq)]
pub struct Pacer {
    /// Target interval in microseconds.
    pub delay: u64,
    /// Accumulated overrun in microseconds.
    pub behind: u64,
}

impl Pacer {
    /// A pacer for `rate` frames per second, at most one million: interval
    /// `1_000_000 / rate` microseconds (never zero), no backlog.
    pub fn new(rate: u64) -> (r: Self)
        requires
            0 < rate <= MICROS_PER_SECOND,
        ensures
            r.delay == MICROS_PER_SECOND / rate,
            r.delay >= 1,
            r.behind == 0,
    {
        proof {
            let r = rate as int;
            assert(1_000_000int / r >= 1) by (nonlinear_arith)
                requires 0 < r <= 1_000_000;
        }
        Pacer { delay: MICROS_PER_SECOND / rate, behind: 0 }
    }

    /// Decides whether the next frame is rendered. When the backlog exceeds
    /// one interval the frame is skipped and one interval is paid off.
    pub fn begin_frame(&mut self) -> (render: bool)
        ensures
            (render, final(self).behind) == pace_begin(old(self).delay, old(self).behind),
            final(self).delay == old(self).delay,
    {
        if self.behind > self.delay {
            self.behind = self.behind - self.delay;
            false
        } else {
            true
        }
    }

    /// Closes a rendered frame that took `elapsed` microseconds and returns how long to
    /// sleep: the rest of the interval, or nothing when it overran, the
    /// overrun then being added to the backlog.
    pub fn end_frame(&mut self, elapsed: u64) -> (sleep: u64)
        ensures
            (sleep, final(self).behind) == pace_end(old(self).delay, old(self).behind, elapsed),
            final(self).delay == old(self).delay,
            sleep <= old(self).delay,
    {
        let (sleep, extra) = remaining_sub(self.delay, elapsed);
        self.behind = self.behind.saturating_add(extra);
        sleep
    }
}

proof fn lemma_renders_all_bounds_backlog(delay: u64, behind: u64, elapsed: Seq<u64>)
    requires
        elapsed.len() >= 1,
        forall|i: int| 0 <= i < elapsed.len() ==> #[trigger] elapsed[i] > delay,
        renders_all(delay, behind, elapsed),
    ensures
        behind + elapsed.len() - 1 <= delay,
    decreases elapsed.len(),
{
    if elapsed.len() > 1 {
        let b1 = pace_end(delay, behind, elapsed[0]).1;
        let rest = elapsed.drop_first();
        assert forall|i: int| 0 <= i < rest.len() implies #[trigger] rest[i] > delay by {
            assert(rest[i] == elapsed[i + 1]);
        }
        lemma_renders_all_bounds_backlog(delay, b1, rest);
    }
}

/// Under sustained overrun (every frame takes longer than the interval), the
/// backlog grows with each rendered frame until it exceeds one interval, so
/// within `delay + 2` frames at least one render is skipped.
pub proof fn lemma_sustained_overrun_skips(delay: u64, behind: u64, elapsed: Seq<u64>)
    requires
        forall|i: int| 0 <= i < elapsed.len() ==> #[trigger] elapsed[i] > delay,
        elapsed.len() >= delay + 2,
    ensures
        !renders_all(delay, behind, elapsed),
{
    if renders_all(delay, behind, elapsed) {
        lemma_renders_all_bounds_backlog(delay, behind, elapsed);
    }
}

/// A rendered frame sleeps for what is left of the interval: never longer
/// than the interval, and not at all when the frame overran it.
pub proof fn lemma_sleep_within_interval(delay: u64, behind: u64, elapsed: u64)
    ensures
        pace_end(delay, behind, elapsed).0 <= delay,
        elapsed >= delay ==> pace_end(delay, behind, elapsed).0 == 0,
{
}

/// Whether `c` is ASCII white space.
pub open spec fn is_space(c: char) -> bool {
    c == ' ' || c == '\t' || c == '\n' || c == '\r'
}

/// Number of leading white-space characters of `s`.
pub open spec fn leading_spaces(s: Seq<char>) -> nat
    decreases s.len(),
{
    if s.len() > 0 && is_space(s[0]) {
        1 + leading_spaces(s.drop_first())
    } else {
        0
    }
}

/// Number of trailing white-space characters of `s`.
pub open spec fn trailing_spaces(s: Seq<char>) -> nat
    decreases s.len(),
{
    if s.len() > 0 && is_space(s.last()) {
        1 + trailing_spaces(s.drop_last())
    } else {
        0
    }
}

/// `s` without leading and trailing white space.
pub open spec fn trimmed(s: Seq<char>) -> Seq<char> {
    let t = s.subrange(leading_spaces(s) as int, s.len() as int);
    t.subrange(0, t.len() - trailing_spaces(t))
}

/// Index of the first `/` in `s`, or `s.len()`.
pub open spec fn first_slash(s: Seq<char>) -> nat
    decreases s.len(),
{
    if s.len() == 0 || s[0] == '/' {
        0
    } else {
        1 + first_slash(s.drop_first())
    }
}

/// `round(n / d)` with halves rounded up.
pub open spec fn round_div(n: nat, d: nat) -> nat {
    ((2 * n + d) / (2 * d)) as nat
}

/// The frame rate that a probe's `num/den` output gives, as (fps,
/// frametime in microseconds): both parts frame numbers, both nonzero, and
/// the frametime fitting in 64 bits.
pub open spec fn frame_rate_spec(text: Seq<char>) -> Option<(nat, nat)> {
    let t = trimmed(text);
    let i = first_slash(t);
    let num = t.subrange(0, i as int);
    let den = t.subrange(i as int + 1, t.len() as int);
    if i < t.len() && is_frame_number(num) && is_frame_number(den) {
        let n = digits_value(number_digits(num));
        let d = digits_value(number_digits(den));
        if n > 0 && d > 0 && round_div((MICROS_PER_SECOND * d) as nat, n) <= u64::MAX {
            Some((round_div(n, d), round_div((MICROS_PER_SECOND * d) as nat, n)))
        } else {
            None
        }
    } else {
        None
    }
}

proof fn lemma_leading_bound(s: Seq<char>)
    ensures
        leading_spaces(s) <= s.len(),
    decreases s.len(),
{
    if s.len() > 0 && is_space(s[0]) {
        lemma_leading_bound(s.drop_first());
    }
}

proof fn lemma_trailing_bound(s: Seq<char>)
    ensures
        trailing_spaces(s) <= s.len(),
    decreases s.len(),
{
    if s.len() > 0 && is_space(s.last()) {
        lemma_trailing_bound(s.drop_last());
    }
}

/// The bounds of `text` without its leading and trailing white space.
fn trim_bounds(text: &str) -> (r: (usize, usize))
    ensures
        r.0 <= r.1 <= text@.len(),
        text@.subrange(r.0 as int, r.1 as int) == trimmed(text@),
{
    let len = text.unicode_len();
    let ghost s = text@;
    let mut a: usize = 0;
    assert(s.subrange(0, len as int) =~= s);
    while a < len && is_space_char(text.get_char(a))
        invariant
            len == s.len(),
            s == text@,
            a <= len,
            leading_spaces(s) == a + leading_spaces(s.subrange(a as int, len as int)),
        decreases len - a,
    {
        assert(s.subrange(a as int, len as int).drop_first() =~= s.subrange(a + 1, len as int));
        a = a + 1;
    }
    proof {
        let rest = s.subrange(a as int, len as int);
        if a < len {
            assert(rest[0] == s[a as int]);
        }
        assert(leading_spaces(rest) == 0);
    }
    let ghost t0 = s.subrange(a as int, len as int);
    let mut b: usize = len;
    assert(t0.subrange(0, (b - a) as int) =~= t0);
    while b > a && is_space_char(text.get_char(b - 1))
        invariant
            len == s.len(),
            s == text@,
            t0 == s.subrange(a as int, len as int),
            a <= b <= len,
            trailing_spaces(t0) == (len - b) + trailing_spaces(t0.subrange(0, (b - a) as int)),
        decreases b,
    {
        assert(t0.subrange(0, (b - a) as int).drop_last() =~= t0.subrange(0, (b - 1 - a) as int));
        assert(t0.subrange(0, (b - a) as int).last() == s[b - 1]);
        b = b - 1;
    }
    proof {
        let u = t0.subrange(0, (b - a) as int);
        if b > a {
            assert(u.last() == s[b - 1]);
        }
        assert(trailing_spaces(u) == 0);
        assert(trimmed(s) =~= s.subrange(a as int, b as int));
    }
    (a, b)
}

/// The position of the first `/` in `text` from `a` up to `b`, or `b`.
fn find_slash(text: &str, a: usize, b: usize) -> (i: usize)
    requires
        a <= b <= text@.len(),
    ensures
        a <= i <= b,
        i - a == first_slash(text@.subrange(a as int, b as int)),
{
    let ghost s = text@;
    let ghost t = s.subrange(a as int, b as int);
    let mut i: usize = a;
    assert(s.subrange(a as int, b as int) =~= t);
    while i < b && text.get_char(i) != '/'
        invariant
            s == text@,
            t == s.subrange(a as int, b as int),
            a <= i <= b <= s.len(),
            first_slash(t) == (i - a) + first_slash(s.subrange(i as int, b as int)),
        decreases b - i,
    {
        assert(s.subrange(i as int, b as int).drop_first() =~= s.subrange(i + 1, b as int));
        i = i + 1;
    }
    proof {
        if i < b {
            assert(s.subrange(i as int, b as int)[0] == s[i as int]);
        }
        assert(first_slash(s.subrange(i as int, b as int)) == 0);
    }
    i
}

proof fn lemma_first_slash(t: Seq<char>)
    ensures
        first_slash(t) <= t.len(),
        first_slash(t) < t.len() ==> t[first_slash(t) as int] == '/',
    decreases t.len(),
{
    if t.len() > 0 && t[0] != '/' {
        lemma_first_slash(t.drop_first());
    }
}

/// Reads the frame rate a video probe printed, `num/den` with optional
/// surrounding white space, as (fps, frametime in microseconds), each
/// rounded to the nearest integer. `None` when the text is not of that
/// form, a part is zero, or the frametime does not fit in 64 bits.
pub fn parse_frame_rate(text: &str) -> (r: Option<(u64, u64)>)
    ensures
        r is Some <==> frame_rate_spec(text@) is Some,
        r matches Some((fps, ft)) ==> frame_rate_spec(text@) == Some((fps as nat, ft as nat)),
{
    let (a, b) = trim_bounds(text);
    let i = find_slash(text, a, b);
    let ghost t = text@.subrange(a as int, b as int);
    proof {
        lemma_first_slash(t);
    }
    if i == b {
        return None;
    }
    let num_text = text.substring_char(a, i);
    let den_text = text.substring_char(i + 1, b);
    assert(num_text@ =~= t.subrange(0, (i - a) as int));
    assert(den_text@ =~= t.subrange((i - a) + 1, t.len() as int));
    let n = match parse_frame_number(num_text) {
        Some(n) => n,
        None => return None,
    };
    let d = match parse_frame_number(den_text) {
        Some(d) => d,
        None => return None,
    };
    if n == 0 || d == 0 {
        return None;
    }
    proof {
        let nn = n as int;
        let dd = d as int;
        let q = (2 * nn + dd) / (2 * dd);
        assert((2 * dd) * q <= 2 * nn + dd) by (nonlinear_arith)
            requires dd >= 1, q == (2 * nn + dd) / (2 * dd);
        assert(q <= nn) by (nonlinear_arith)
            requires dd >= 1, nn >= 1, (2 * dd) * q <= 2 * nn + dd;
        assert(2 * 1_000_000 * dd <= 2 * 1_000_000 * 0x1_0000_0000_0000_0000int) by (nonlinear_arith)
            requires dd < 0x1_0000_0000_0000_0000int;
    }
    let fps = ((2 * (n as u128) + d as u128) / (2 * (d as u128))) as u64;
    let ft = (2 * (MICROS_PER_SECOND as u128) * (d as u128) + n as u128) / (2 * (n as u128));
    proof {
        let m: int = 1_000_000 * (d as int);
        assert(2 * 1_000_000 * (d as int) == 2 * m) by (nonlinear_arith)
            requires m == 1_000_000 * (d as int);
        assert(MICROS_PER_SECOND * d == m);
        assert(ft as int == (2 * m + n) / (2 * (n as int)));
        assert(ft as nat == round_div((MICROS_PER_SECOND * d) as nat, n as nat));
        assert(fps as nat == round_div(n as nat, d as nat));
    }
    if ft > u64::MAX as u128 {
        return None;
    }
    Some((fps, ft as u64))
}

fn is_space_char(c: char) -> (r: bool)
    ensures
        r == is_space(c),
{
    c == ' ' || c == '\t' || c == '\n' || c == '\r'
}

} // verus!
