use vstd::prelude::*;
use vstd::string::StrSliceExecFns;

verus! {

/// Index of the first threshold that is at least `b`, or `ts.len()` when
/// every threshold is below it.
pub open spec fn first_at_least(ts: Seq<u8>, b: u8) -> nat
    decreases ts.len(),
{
    if ts.len() == 0 {
        0
    } else if b <= ts[0] {
        0
    } else {
        1 + first_at_least(ts.drop_first(), b)
    }
}

/// The glyph that a table of thresholds and glyphs gives to brightness `b`.
pub open spec fn glyph_of(ts: Seq<u8>, cs: Seq<char>, fallback: char, b: u8) -> char {
    let i = first_at_least(ts, b);
    if i < ts.len() {
        cs[i as int]
    } else {
        fallback
    }
}

/// `round(i / d * 250)` with halves rounded up, for `d >= 1`.
pub open spec fn spread_threshold(i: nat, d: nat) -> nat {
    ((500 * i + d) / (2 * d)) as nat
}

/// The glyphs of a charset built from `spec`: a space, then the characters of `spec`.
pub open spec fn charset_glyphs(spec: Seq<char>) -> Seq<char> {
    seq![' '].add(spec)
}

/// The threshold given to glyph `i` of `n`.
pub open spec fn charset_threshold(i: nat, n: nat) -> nat {
    spread_threshold(i, if n >= 2 { (n - 1) as nat } else { 1 })
}

/// A brightness-to-glyph table. Thresholds are ascending, each one belongs to
/// the glyph at the same position, and the last glyph also serves as fallback
/// for brightness above every threshold.
#[derive(Debug, Clone)]
pub struct Charset {
    thresholds: Vec<u8>,
    chars: Vec<char>,
    fallback: char,
}

impl Charset {
    pub closed spec fn thresholds_spec(&self) -> Seq<u8> {
        self.thresholds@
    }

    pub closed spec fn glyphs_spec(&self) -> Seq<char> {
        self.chars@
    }

    pub closed spec fn fallback_spec(&self) -> char {
        self.fallback
    }

    /// One threshold per glyph, at least one glyph, and the fallback is the last glyph.
    pub open spec fn wf(&self) -> bool {
        &&& self.thresholds_spec().len() == self.glyphs_spec().len()
        &&& self.glyphs_spec().len() >= 1
        &&& self.fallback_spec() == self.glyphs_spec().last()
    }

    /// This charset is the one built from `spec`: a space then the
    /// characters of `spec`, glyph `i` of `n` at threshold `round(i / (n - 1) * 250)`.
    pub open spec fn built_from(&self, spec: Seq<char>) -> bool {
        &&& self.wf()
        &&& self.glyphs_spec() == charset_glyphs(spec)
        &&& forall|i: int|
            0 <= i < self.thresholds_spec().len() ==> self.thresholds_spec()[i] as nat
                == charset_threshold(i as nat, self.glyphs_spec().len())
    }

    /// The glyph for `brightness`.
    pub open spec fn glyph_spec(&self, brightness: u8) -> char {
        glyph_of(self.thresholds_spec(), self.glyphs_spec(), self.fallback_spec(), brightness)
    }

    /// Finds the glyph of the first threshold at or above `brightness`, or the
    /// fallback glyph when `brightness` is above every threshold.
    pub fn match_char(&self, brightness: u8) -> (r: char)
        requires
            self.wf(),
        ensures
            r == self.glyph_spec(brightness),
            self.glyphs_spec().contains(r),
    {
        let n = self.thresholds.len();
        let mut i: usize = 0;
        assert(self.thresholds@.skip(0) =~= self.thresholds@);
        while i < n
            invariant
                self.wf(),
                n == self.thresholds@.len(),
                i <= n,
                first_at_least(self.thresholds@, brightness)
                    == i + first_at_least(self.thresholds@.skip(i as int), brightness),
            decreases n - i,
        {
            assert(self.thresholds@.skip(i as int).drop_first() =~= self.thresholds@.skip(i + 1));
            if brightness <= self.thresholds[i] {
                let c = self.chars[i];
                assert(self.chars@[i as int] == c);
                return c;
            }
            i = i + 1;
        }
        assert(self.thresholds@.skip(n as int).len() == 0);
        assert(self.chars@[self.chars@.len() - 1] == self.fallback);
        self.fallback
    }

    /// Builds a charset from `spec`, characters ordered from darkest to
    /// brightest. A space is put first; glyph `i` of `n` gets the threshold
    /// `round(i / (n - 1) * 250)`, so thresholds run from 0 up to 250.
    pub fn mkcharset(spec: &str) -> (r: Self)
        ensures
            r.built_from(spec@),
            forall|i: int, j: int|
                0 <= i <= j < r.thresholds_spec().len() ==> r.thresholds_spec()[i]
                    <= r.thresholds_spec()[j],
            r.thresholds_spec()[0] == 0,
            r.glyphs_spec().len() >= 2 ==> r.thresholds_spec().last() == 250,
    {
        let len = spec.unicode_len();
        let mut chars: Vec<char> = Vec::new();
        chars.push(' ');
        let mut k: usize = 0;
        while k < len
            invariant
                len == spec@.len(),
                k <= len,
                chars@ =~= charset_glyphs(spec@.subrange(0, k as int)),
            decreases len - k,
        {
            let c = spec.get_char(k);
            chars.push(c);
            k = k + 1;
            assert(chars@ =~= charset_glyphs(spec@.subrange(0, k as int)));
        }
        assert(spec@.subrange(0, len as int) =~= spec@);
        let steps = chars.len();
        let d: u128 = if steps >= 2 { (steps - 1) as u128 } else { 1 };
        let mut thresholds: Vec<u8> = Vec::new();
        let mut i: usize = 0;
        while i < steps
            invariant
                steps == chars@.len(),
                steps >= 1,
                d as nat == if steps >= 2 { (steps - 1) as nat } else { 1nat },
                i <= steps,
                thresholds@.len() == i,
                forall|j: int|
                    0 <= j < i ==> thresholds@[j] as nat == charset_threshold(j as nat, steps as nat),
            decreases steps - i,
        {
            proof {
                lemma_spread_bounded(i as nat, d as nat);
            }
            let t = ((500 * (i as u128) + d) / (2 * d)) as u8;
            thresholds.push(t);
            i = i + 1;
        }
        let last = chars[steps - 1];
        proof {
            assert forall|a: int, b: int|
                0 <= a <= b < thresholds@.len() implies thresholds@[a] <= thresholds@[b] by {
                lemma_spread_monotone(a as nat, b as nat, d as nat);
            }
            assert(thresholds@[0] as nat == charset_threshold(0, steps as nat));
            assert(spread_threshold(0, d as nat) == 0) by {
                assert((500 * 0 + d) / (2 * d) == 0) by (nonlinear_arith)
                    requires d >= 1;
            }
            if steps >= 2 {
                lemma_spread_top(d as nat);
                assert(thresholds@[steps - 1] as nat == charset_threshold((steps - 1) as nat, steps as nat));
            }
        }
        Charset { thresholds, chars, fallback: last }
    }
}

proof fn lemma_spread_bounded(i: nat, d: nat)
    requires
        d >= 1,
        i <= d,
    ensures
        spread_threshold(i, d) <= 250,
{
    assert((500 * i + d) / (2 * d) <= 250) by (nonlinear_arith)
        requires d >= 1, i <= d;
}

proof fn lemma_spread_monotone(a: nat, b: nat, d: nat)
    requires
        d >= 1,
        a <= b,
    ensures
        spread_threshold(a, d) <= spread_threshold(b, d),
{
    assert((500 * a + d) / (2 * d) <= (500 * b + d) / (2 * d)) by (nonlinear_arith)
        requires d >= 1, a <= b;
}

proof fn lemma_spread_top(d: nat)
    requires
        d >= 1,
    ensures
        spread_threshold(d, d) == 250,
{
    assert((500 * d + d) / (2 * d) == 250) by (nonlinear_arith)
        requires d >= 1;
}

/// Two charsets built from one specification give every brightness the same glyph.
pub proof fn lemma_built_from_same_glyphs(c1: Charset, c2: Charset, spec: Seq<char>)
    requires
        c1.built_from(spec),
        c2.built_from(spec),
    ensures
        forall|b: u8| c1.glyph_spec(b) == c2.glyph_spec(b),
{
    assert(c1.thresholds_spec() =~= c2.thresholds_spec());
}

} // verus!
