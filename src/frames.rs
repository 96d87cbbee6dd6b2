use vstd::prelude::*;
use vstd::string::StrSliceExecFns;

verus! {

/// One frame of a stream, tagged with its sequence number.
#[derive(Debug, Clone, PartialEq, Eq)]
pub struct FrameEntry {
    pub number: u64,
    pub data: Vec<u8>,
}

/// No two entries share a sequence number.
pub open spec fn numbers_distinct(s: Seq<FrameEntry>) -> bool {
    forall|i: int, j: int| 0 <= i < s.len() && 0 <= j < s.len() && i != j ==> s[i].number != s[j].number
}

/// Sequence numbers strictly increase along the sequence.
pub open spec fn strictly_ascending(s: Seq<FrameEntry>) -> bool {
    forall|i: int, j: int| 0 <= i < j < s.len() ==> s[i].number < s[j].number
}

/// `a` and `b` hold the same entries.
pub open spec fn same_entries(a: Seq<FrameEntry>, b: Seq<FrameEntry>) -> bool {
    &&& forall|i: int| 0 <= i < a.len() ==> b.contains(#[trigger] a[i])
    &&& forall|i: int| 0 <= i < b.len() ==> a.contains(#[trigger] b[i])
}

/// The value of a run of decimal digits.
pub open spec fn digits_value(s: Seq<char>) -> nat
    decreases s.len(),
{
    if s.len() == 0 {
        0
    } else {
        digits_value(s.drop_last()) * 10 + digit_value(s.last())
    }
}

pub open spec fn is_digit(c: char) -> bool {
    '0' <= c <= '9'
}

pub open spec fn digit_value(c: char) -> nat {
    (c as nat - '0' as nat) as nat
}

/// The digits of a frame number as text: an optional leading `+`, then at least one digit.
pub open spec fn number_digits(s: Seq<char>) -> Seq<char> {
    if s.len() > 0 && s[0] == '+' {
        s.drop_first()
    } else {
        s
    }
}

/// Whether `s` is the text of a frame number that fits in 64 bits.
pub open spec fn is_frame_number(s: Seq<char>) -> bool {
    let d = number_digits(s);
    &&& d.len() > 0
    &&& forall|i: int| 0 <= i < d.len() ==> is_digit(#[trigger] d[i])
    &&& digits_value(d) <= u64::MAX
}

/// Reads a frame number from a file stem: decimal digits, with an optional
/// leading `+`, whose value fits in 64 bits. Anything else gives `None`.
pub fn parse_frame_number(stem: &str) -> (r: Option<u64>)
    ensures
        r is Some <==> is_frame_number(stem@),
        r matches Some(n) ==> n as nat == digits_value(number_digits(stem@)),
{
    let len = stem.unicode_len();
    let mut start: usize = 0;
    if len > 0 && stem.get_char(0) == '+' {
        start = 1;
    }
    let ghost d = number_digits(stem@);
    assert(d =~= stem@.subrange(start as int, len as int));
    if start == len {
        return None;
    }
    let mut value: u64 = 0;
    let mut i: usize = start;
    while i < len
        invariant
            len == stem@.len(),
            start <= i <= len,
            d == stem@.subrange(start as int, len as int),
            d == number_digits(stem@),
            forall|k: int| 0 <= k < i - start ==> is_digit(#[trigger] d[k]),
            value as nat == digits_value(d.subrange(0, i - start)),
        decreases len - i,
    {
        let c = stem.get_char(i);
        assert(c == d[i - start]);
        assert(d.subrange(0, i - start + 1).drop_last() =~= d.subrange(0, i - start));
        if c < '0' || c > '9' {
            assert(!is_digit(d[i - start]));
            return None;
        }
        let digit = (c as u32 - '0' as u32) as u64;
        if value > (u64::MAX - digit) / 10 {
            proof {
                let m = (i - start + 1) as nat;
                assert(digits_value(d.subrange(0, m as int)) == value * 10 + digit);
                assert(value * 10 + digit > u64::MAX) by (nonlinear_arith)
                    requires value > (u64::MAX - digit) / 10, digit <= 9;
                if forall|k: int| 0 <= k < d.len() ==> is_digit(#[trigger] d[k]) {
                    lemma_digits_grow(d, m);
                }
            }
            return None;
        }
        value = value * 10 + digit;
        i = i + 1;
    }
    assert(d.subrange(0, len - start) =~= d);
    Some(value)
}

/// Once a prefix of digits exceeds a bound, every longer prefix does too.
proof fn lemma_digits_grow(d: Seq<char>, k: nat)
    requires
        k <= d.len(),
        forall|i: int| 0 <= i < d.len() ==> is_digit(#[trigger] d[i]),
    ensures
        digits_value(d.subrange(0, k as int)) <= digits_value(d),
    decreases d.len() - k,
{
    if k < d.len() {
        lemma_digits_grow(d, k + 1);
        assert(d.subrange(0, k + 1 as int).drop_last() =~= d.subrange(0, k as int));
    } else {
        assert(d.subrange(0, k as int) =~= d);
    }
}

/// Puts frames in ascending order of sequence number. Fails with the
/// number that two frames share, exactly when there is one.
pub fn order_frames(frames: Vec<FrameEntry>) -> (r: Result<Vec<FrameEntry>, u64>)
    ensures
        r is Ok <==> numbers_distinct(frames@),
        r matches Ok(v) ==> strictly_ascending(v@) && v@.len() == frames@.len() && same_entries(
            v@,
            frames@,
        ),
        r matches Err(n) ==> exists|i: int, j: int|
            0 <= i < frames@.len() && 0 <= j < frames@.len() && i != j && frames@[i].number == n
                && frames@[j].number == n,
{
    let ghost orig = frames@;
    let mut rest = frames;
    let mut out: Vec<FrameEntry> = Vec::new();
    while rest.len() > 0
        invariant
            orig == frames@,
            rest@ == orig.subrange(0, rest@.len() as int),
            out@.len() + rest@.len() == orig.len(),
            strictly_ascending(out@),
            numbers_distinct(orig.subrange(rest@.len() as int, orig.len() as int)),
            forall|j: int| rest@.len() <= j < orig.len() ==> out@.contains(#[trigger] orig[j]),
            forall|i: int|
                0 <= i < out@.len() ==> orig.subrange(rest@.len() as int, orig.len() as int).contains(
                    #[trigger] out@[i],
                ),
        decreases rest@.len(),
    {
        let ghost k = (rest@.len() - 1) as int;
        let ghost suffix = orig.subrange(k + 1, orig.len() as int);
        let e = rest.pop().unwrap();
        assert(e == orig[k]);
        let mut pos: usize = 0;
        while pos < out.len() && out[pos].number < e.number
            invariant
                pos <= out@.len(),
                forall|i: int| 0 <= i < pos ==> out@[i].number < e.number,
            decreases out@.len() - pos,
        {
            pos = pos + 1;
        }
        if pos < out.len() && out[pos].number == e.number {
            proof {
                let x = out@[pos as int];
                assert(suffix.contains(x));
                let j = choose|j: int| 0 <= j < suffix.len() && suffix[j] == x;
                assert(orig[k + 1 + j] == x);
                assert(orig[k].number == e.number);
                assert(0 <= k < orig.len() && 0 <= k + 1 + j < orig.len() && k != k + 1 + j
                    && orig[k].number == e.number && orig[k + 1 + j].number == e.number);
                assert(!numbers_distinct(orig));
            }
            return Err(e.number);
        }
        proof {
            assert forall|i: int| pos <= i < out@.len() implies e.number < #[trigger] out@[i].number by {
                if i > pos {
                    assert(out@[pos as int].number < out@[i].number);
                }
            }
            let sfx2 = orig.subrange(k, orig.len() as int);
            assert(sfx2 =~= seq![orig[k]] + suffix);
            assert forall|a: int, b: int|
                0 <= a < sfx2.len() && 0 <= b < sfx2.len() && a != b implies sfx2[a].number
                != sfx2[b].number by {
                if a != 0 && b != 0 {
                    assert(sfx2[a] == suffix[a - 1] && sfx2[b] == suffix[b - 1]);
                } else {
                    let other = if a == 0 { b } else { a };
                    let x = suffix[other - 1];
                    assert(out@.contains(orig[k + other]));
                    let m = choose|m: int| 0 <= m < out@.len() && out@[m] == x;
                    if m < pos {
                        assert(out@[m].number < e.number);
                    } else {
                        if m > pos {
                            assert(out@[pos as int].number < out@[m].number);
                        }
                    }
                }
            }
        }
        let ghost old_out = out@;
        out.insert(pos, e);
        proof {
            assert(out@ == old_out.insert(pos as int, e));
            let sfx2 = orig.subrange(k, orig.len() as int);
            assert forall|i: int, j: int| 0 <= i < j < out@.len() implies out@[i].number
                < out@[j].number by {
                if i < pos && j == pos {
                } else if i < pos && j > pos {
                    assert(out@[j] == old_out[j - 1]);
                } else if i == pos {
                    assert(out@[j] == old_out[j - 1]);
                } else if j < pos {
                } else {
                    assert(out@[i] == old_out[i - 1] && out@[j] == old_out[j - 1]);
                }
            }
            assert forall|j: int| k <= j < orig.len() implies out@.contains(#[trigger] orig[j]) by {
                if j == k {
                    assert(out@[pos as int] == e);
                } else {
                    let m = choose|m: int| 0 <= m < old_out.len() && old_out[m] == orig[j];
                    if m < pos {
                        assert(out@[m] == orig[j]);
                    } else {
                        assert(out@[m + 1] == orig[j]);
                    }
                }
            }
            assert forall|i: int| 0 <= i < out@.len() implies sfx2.contains(#[trigger] out@[i]) by {
                if i == pos {
                    assert(sfx2[0] == e);
                } else {
                    let x = if i < pos { old_out[i] } else { old_out[i - 1] };
                    assert(out@[i] == x);
                    assert(suffix.contains(x));
                    let j = choose|j: int| 0 <= j < suffix.len() && suffix[j] == x;
                    assert(sfx2[j + 1] == x);
                }
            }
            assert(rest@ =~= orig.subrange(0, rest@.len() as int));
        }
    }
    proof {
        assert(orig.subrange(0, orig.len() as int) =~= orig);
        assert forall|i: int| 0 <= i < orig.len() implies out@.contains(#[trigger] orig[i]) by {}
    }
    Ok(out)
}

/// Sorting by sequence number has a single outcome: two strictly ascending
/// arrangements of the same entries are the same sequence, whatever order
/// the entries were produced in.
pub proof fn lemma_ascending_order_is_unique(a: Seq<FrameEntry>, b: Seq<FrameEntry>)
    requires
        strictly_ascending(a),
        strictly_ascending(b),
        a.len() == b.len(),
        same_entries(a, b),
    ensures
        a == b,
{
    assert forall|i: int| 0 <= i < a.len() implies a[i] == b[i] by {
        lemma_ascending_prefix_equal(a, b, i);
    }
    assert(a =~= b);
}

proof fn lemma_ascending_prefix_equal(a: Seq<FrameEntry>, b: Seq<FrameEntry>, i: int)
    requires
        strictly_ascending(a),
        strictly_ascending(b),
        a.len() == b.len(),
        same_entries(a, b),
        0 <= i < a.len(),
    ensures
        a[i] == b[i],
    decreases i,
{
    assert forall|k: int| 0 <= k < i implies a[k] == b[k] by {
        lemma_ascending_prefix_equal(a, b, k);
    }
    assert(b.contains(a[i]));
    let j = choose|j: int| 0 <= j < b.len() && b[j] == a[i];
    assert(a.contains(b[i]));
    let m = choose|m: int| 0 <= m < a.len() && a[m] == b[i];
    if j < i {
        assert(a[j] == b[j]);
        assert(a[j].number < a[i].number);
    } else if j > i {
        if m < i {
            assert(a[m] == b[m]);
            assert(b[m].number < b[i].number);
        } else if m == i {
            assert(b[i].number < b[j].number);
        } else {
            assert(a[i].number < a[m].number);
            assert(b[i].number < b[j].number);
        }
    }
}

} // verus!
