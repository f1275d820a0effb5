//! The mathematical model of a fixed-point value: a sign, a word-granularity
//! binary point, and a word sequence. `at_scale(t)` reads the value times
//! `2^t` as an integer, which lets contracts state exact arithmetic facts
//! without rationals.
use crate::magnitude::{
    lemma_mag_all_zero, lemma_mag_bound, lemma_mag_injective, lemma_mag_last,
    lemma_mag_lower_bound, mag, BASE,
};
use vstd::arithmetic::mul::*;
use vstd::arithmetic::power2::*;
use vstd::prelude::*;

verus! {

/// Abstract state of a fixed-point number. `point` counts whole words from
/// the left of `words`; `sign` true means negative.
#[verifier::ext_equal]
pub ghost struct FixedModel {
    pub sign: bool,
    pub point: int,
    pub words: Seq<u32>,
}

impl FixedModel {
    /// Word index (exponent in base 2^32) of the unit just below the last
    /// stored word: the value is `smag * 2^(32 * lo)`.
    pub open spec fn lo(self) -> int {
        self.point - self.words.len()
    }

    /// Signed magnitude of the stored words.
    pub open spec fn smag(self) -> int {
        if self.sign {
            -(mag(self.words) as int)
        } else {
            mag(self.words) as int
        }
    }

    /// Whether `at_scale(t)` reads the full value exactly.
    pub open spec fn scale_ok(self, t: int) -> bool {
        32 * self.lo() + t >= 0
    }

    /// The value multiplied by `2^t`; exact whenever `scale_ok(t)`.
    pub open spec fn at_scale(self, t: int) -> int {
        self.smag() * pow2((32 * self.lo() + t) as nat)
    }

    /// The denoted value is zero.
    pub open spec fn is_zero_val(self) -> bool {
        mag(self.words) == 0
    }

    /// Trimmed shape: no leading or trailing zero word; the canonical zero
    /// has an empty buffer, point zero and a positive sign.
    pub open spec fn canonical(self) -> bool {
        if self.words.len() == 0 {
            self.point == 0 && !self.sign
        } else {
            self.words[0] != 0 && self.words.last() != 0
        }
    }

    /// The model with the sign flipped.
    pub open spec fn negated(self) -> FixedModel {
        FixedModel { sign: !self.sign, point: self.point, words: self.words }
    }

    /// Whole-word count forced to `n`: leading zero words inserted or
    /// leading words removed; an emptied buffer resets the point.
    pub open spec fn with_whole(self, n: int) -> FixedModel {
        let d = n - self.point;
        let words = if d >= 0 {
            crate::magnitude::zero_words(d as nat) + self.words
        } else if -d < self.words.len() {
            self.words.skip(-d)
        } else {
            Seq::<u32>::empty()
        };
        FixedModel {
            sign: self.sign,
            point: if words.len() == 0 {
                0
            } else {
                n
            },
            words,
        }
    }

    /// Fractional-word count forced to `n`: the buffer is zero-extended or
    /// truncated on the right; an emptied buffer resets the point.
    pub open spec fn with_dec(self, n: int) -> FixedModel {
        let m = if n + self.point >= 0 {
            (n + self.point) as nat
        } else {
            0
        };
        let words = if m <= self.words.len() {
            self.words.take(m as int)
        } else {
            self.words + crate::magnitude::zero_words((m - self.words.len()) as nat)
        };
        FixedModel {
            sign: self.sign,
            point: if words.len() == 0 {
                0
            } else {
                self.point
            },
            words,
        }
    }

    /// Total word count forced to `n` regardless of the point; an emptied
    /// buffer resets the point.
    pub open spec fn with_precision(self, n: nat) -> FixedModel {
        let words = if n <= self.words.len() {
            self.words.take(n as int)
        } else {
            self.words + crate::magnitude::zero_words((n - self.words.len()) as nat)
        };
        FixedModel {
            sign: self.sign,
            point: if n == 0 {
                0
            } else {
                self.point
            },
            words,
        }
    }

    /// Number of leading words kept by the whole part: the point clamped to
    /// the stored range.
    pub open spec fn whole_split(self) -> int {
        if self.point < 0 {
            0
        } else if self.point > self.words.len() {
            self.words.len() as int
        } else {
            self.point
        }
    }

    /// The whole-word part: the words before the point, under the original
    /// point.
    pub open spec fn whole_part(self) -> FixedModel {
        FixedModel { sign: self.sign, point: self.point, words: self.words.take(self.whole_split()) }
    }

    /// The fractional part: the words at and after the point, under a
    /// non-positive point.
    pub open spec fn frac_part(self) -> FixedModel {
        FixedModel {
            sign: self.sign,
            point: if self.point >= 0 {
                0
            } else {
                self.point
            },
            words: self.words.skip(self.whole_split()),
        }
    }
}

/// Both models denote the same value: equal once read at a common scale.
pub open spec fn same_value(a: FixedModel, b: FixedModel) -> bool {
    a.at_scale(common_scale(a, b)) == b.at_scale(common_scale(a, b))
}

/// A scale at which both models are exact.
pub open spec fn common_scale(a: FixedModel, b: FixedModel) -> int {
    if -32 * a.lo() >= -32 * b.lo() {
        -32 * a.lo()
    } else {
        -32 * b.lo()
    }
}

/// Reading the same value at a coarser scale just multiplies by a power of
/// two: `at_scale(t2) == at_scale(t1) * 2^(t2 - t1)`.
pub proof fn lemma_scale_shift(m: FixedModel, t1: int, t2: int)
    requires
        m.scale_ok(t1),
        t1 <= t2,
    ensures
        m.at_scale(t2) == m.at_scale(t1) * pow2((t2 - t1) as nat),
{
    let e1 = (32 * m.lo() + t1) as nat;
    let d = (t2 - t1) as nat;
    lemma_pow2_adds(e1, d);
    assert(m.smag() * (pow2(e1) * pow2(d)) == (m.smag() * pow2(e1)) * pow2(d))
        by (nonlinear_arith);
}

/// If two models agree at one exact scale, they agree at every finer one.
pub proof fn lemma_same_value_at(a: FixedModel, b: FixedModel, t: int)
    requires
        same_value(a, b),
        a.scale_ok(t),
        b.scale_ok(t),
    ensures
        a.at_scale(t) == b.at_scale(t),
{
    let c = common_scale(a, b);
    if t >= c {
        lemma_scale_shift(a, c, t);
        lemma_scale_shift(b, c, t);
    } else {
        lemma_scale_shift(a, t, c);
        lemma_scale_shift(b, t, c);
        let p = pow2((c - t) as nat);
        lemma_pow2_pos((c - t) as nat);
        assert(a.at_scale(t) * p == b.at_scale(t) * p ==> a.at_scale(t) == b.at_scale(t))
            by (nonlinear_arith)
            requires
                p > 0,
        ;
    }
}

/// The scale at which three models are all exact.
pub open spec fn joint_scale(a: FixedModel, b: FixedModel, r: FixedModel) -> int {
    let ab = common_scale(a, b);
    if -32 * r.lo() >= ab {
        -32 * r.lo()
    } else {
        ab
    }
}

/// `r` denotes the sum of `a` and `b`: read at a scale where all three are
/// exact integers, the sum holds exactly.
pub open spec fn sums_to(a: FixedModel, b: FixedModel, r: FixedModel) -> bool {
    let t = joint_scale(a, b, r);
    r.at_scale(t) == a.at_scale(t) + b.at_scale(t)
}

/// The sum relation transfers to any scale at which all three models are
/// exact.
pub proof fn lemma_sums_to_at(a: FixedModel, b: FixedModel, r: FixedModel, t: int)
    requires
        sums_to(a, b, r),
        a.scale_ok(t),
        b.scale_ok(t),
        r.scale_ok(t),
    ensures
        r.at_scale(t) == a.at_scale(t) + b.at_scale(t),
{
    let t0 = joint_scale(a, b, r);
    if t >= t0 {
        lemma_scale_shift(a, t0, t);
        lemma_scale_shift(b, t0, t);
        lemma_scale_shift(r, t0, t);
        let p = pow2((t - t0) as nat);
        assert((a.at_scale(t0) + b.at_scale(t0)) * p == a.at_scale(t0) * p + b.at_scale(t0) * p)
            by (nonlinear_arith);
    } else {
        lemma_scale_shift(a, t, t0);
        lemma_scale_shift(b, t, t0);
        lemma_scale_shift(r, t, t0);
        let p = pow2((t0 - t) as nat);
        lemma_pow2_pos((t0 - t) as nat);
        assert(r.at_scale(t) * p == a.at_scale(t) * p + b.at_scale(t) * p ==> r.at_scale(t)
            == a.at_scale(t) + b.at_scale(t)) by (nonlinear_arith)
            requires
                p > 0,
        ;
    }
}

/// Establishes the sum relation for a trimmed result from the raw result of
/// the carry loop, which is exact at the window scale `t0`.
pub proof fn lemma_sums_to_from_raw(a: FixedModel, b: FixedModel, r0: FixedModel, r: FixedModel, t0: int)
    requires
        t0 == common_scale(a, b),
        r0.scale_ok(t0),
        r0.at_scale(t0) == a.at_scale(t0) + b.at_scale(t0),
        same_value(r0, r),
    ensures
        sums_to(a, b, r),
{
    let t = joint_scale(a, b, r);
    if t <= t0 {
        // r is exact at t0 as well, or denotes zero.
        if -32 * r.lo() <= t0 {
            lemma_same_value_at(r0, r, t0);
            assert(r.at_scale(t0) == a.at_scale(t0) + b.at_scale(t0));
            lemma_scale_shift(a, t, t0);
            lemma_scale_shift(b, t, t0);
            lemma_scale_shift(r, t, t0);
            let p = pow2((t0 - t) as nat);
            lemma_pow2_pos((t0 - t) as nat);
            assert(r.at_scale(t) * p == a.at_scale(t) * p + b.at_scale(t) * p ==> r.at_scale(t)
                == a.at_scale(t) + b.at_scale(t)) by (nonlinear_arith)
                requires
                    p > 0,
            ;
        }
        assert(t == t0);
    } else {
        // t == -32 * r.lo() > t0
        lemma_scale_shift(a, t0, t);
        lemma_scale_shift(b, t0, t);
        lemma_scale_shift(r0, t0, t);
        let p = pow2((t - t0) as nat);
        assert((a.at_scale(t0) + b.at_scale(t0)) * p == a.at_scale(t0) * p + b.at_scale(t0) * p)
            by (nonlinear_arith);
        lemma_same_value_at(r0, r, t);
    }
}

/// `r` denotes the product of `a` and `b`: at the scale where both factors
/// are integers, the product holds exactly.
pub open spec fn muls_to(a: FixedModel, b: FixedModel, r: FixedModel) -> bool {
    r.at_scale(-32 * (a.lo() + b.lo())) == a.smag() * b.smag()
}

/// `r` denotes the value of `a` divided by `2^n` (shifted right by `n`
/// bits): read at a scale where both sides are exact, they agree.
pub open spec fn shifts_to(a: FixedModel, n: int, r: FixedModel) -> bool {
    let t = if -32 * r.lo() >= -32 * a.lo() + n {
        -32 * r.lo()
    } else {
        -32 * a.lo() + n
    };
    r.at_scale(t) == a.at_scale(t - n)
}

/// A model sharing its value with a zero model has a zero magnitude.
pub proof fn lemma_same_value_zero(a: FixedModel, b: FixedModel)
    requires
        same_value(a, b),
        b.is_zero_val(),
    ensures
        a.smag() == 0,
{
    let c = common_scale(a, b);
    let ea = (32 * a.lo() + c) as nat;
    lemma_pow2_pos(ea);
    assert(b.smag() == 0);
    assert(b.smag() * pow2((32 * b.lo() + c) as nat) == 0) by (nonlinear_arith)
        requires
            b.smag() == 0,
    ;
    assert(a.smag() * pow2(ea) == 0 ==> a.smag() == 0) by (nonlinear_arith)
        requires
            pow2(ea) > 0,
    ;
}

/// `a` denotes a strictly smaller value than `b`.
pub open spec fn val_lt(a: FixedModel, b: FixedModel) -> bool {
    a.at_scale(common_scale(a, b)) < b.at_scale(common_scale(a, b))
}

/// A canonical nonzero value sits between the powers of the base fixed by
/// its point, once read at an exact scale.
pub proof fn lemma_canonical_bracket(m: FixedModel, c: int)
    requires
        m.canonical(),
        m.words.len() > 0,
        m.scale_ok(c),
    ensures
        pow2((32 * (m.point - 1) + c) as nat) <= mag(m.words) * pow2((32 * m.lo() + c) as nat)
            < pow2((32 * m.point + c) as nat),
{
    let len = m.words.len() as nat;
    let e = (32 * m.lo() + c) as nat;
    lemma_mag_lower_bound(m.words);
    lemma_mag_bound(m.words);
    lemma_pow2_adds(32 * (len - 1) as nat, e);
    lemma_pow2_adds(32 * len, e);
    assert((32 * (m.point - 1) + c) as nat == 32 * (len - 1) as nat + e);
    assert((32 * m.point + c) as nat == 32 * len + e);
    lemma_pow2_pos(e);
    assert(pow2(32 * (len - 1) as nat) * pow2(e) <= mag(m.words) * pow2(e)) by (nonlinear_arith)
        requires
            pow2(32 * (len - 1) as nat) <= mag(m.words),
            pow2(e) > 0,
    ;
    assert(mag(m.words) * pow2(e) < pow2(32 * len) * pow2(e)) by (nonlinear_arith)
        requires
            mag(m.words) < pow2(32 * len),
            pow2(e) > 0,
    ;
}

/// The scale at which the fractional words of `a` become whole: zero when
/// there are none.
pub open spec fn frac_scale(a: FixedModel) -> int {
    if a.lo() < 0 {
        -32 * a.lo()
    } else {
        0
    }
}

/// A canonical nonzero value that is a whole number stores no fractional
/// words: if the value read at the scale `-32 * lo` is an integer times
/// that scale, the low end of the buffer sits at or above the point.
pub proof fn lemma_canonical_int_lo(r: FixedModel, x: int)
    requires
        r.canonical(),
        !r.is_zero_val(),
        r.lo() < 0 ==> r.at_scale(-32 * r.lo()) == x * pow2((-32 * r.lo()) as nat),
    ensures
        r.lo() >= 0,
{
    if r.lo() < 0 {
        let t = (-32 * r.lo()) as nat;
        let mr = mag(r.words);
        lemma_pow2_pos(t);
        lemma2_to64();
        assert(r.smag() * pow2(0) == r.smag());
        assert(r.smag() == x * pow2(t));
        lemma_mag_all_zero(r.words);
        assert(mr > 0);
        let ax: nat = if x >= 0 {
            x as nat
        } else {
            (-x) as nat
        };
        assert(mr == ax * pow2(t)) by (nonlinear_arith)
            requires
                r.smag() == x * pow2(t),
                r.smag() == if r.sign {
                    -(mr as int)
                } else {
                    mr as int
                },
                ax == if x >= 0 {
                    x as nat
                } else {
                    (-x) as nat
                },
                mr > 0,
                pow2(t) > 0,
        ;
        assert(ax * pow2(t) == mr * pow2(0));
        lemma_shifted_magnitude_divisible(ax, mr, t, 0, (-r.lo()) as nat);
        lemma_mag_last(r.words);
        assert(mr % (BASE as nat) == r.words.last() as nat);
        assert(false);
    }
}

/// The model of the value one: a single whole word.
pub open spec fn unit_model() -> FixedModel {
    FixedModel { sign: false, point: 1, words: seq![1u32] }
}

/// Agreement at a scale exact for both transfers to the common scale.
pub proof fn lemma_same_at_common(a: FixedModel, b: FixedModel, t: int)
    requires
        a.scale_ok(t),
        b.scale_ok(t),
        a.at_scale(t) == b.at_scale(t),
    ensures
        same_value(a, b),
{
    let c = common_scale(a, b);
    if c <= t {
        lemma_scale_shift(a, c, t);
        lemma_scale_shift(b, c, t);
        let p = pow2((t - c) as nat);
        lemma_pow2_pos((t - c) as nat);
        assert(a.at_scale(c) * p == b.at_scale(c) * p ==> a.at_scale(c) == b.at_scale(c))
            by (nonlinear_arith)
            requires
                p > 0,
        ;
    } else {
        lemma_scale_shift(a, t, c);
        lemma_scale_shift(b, t, c);
    }
}

/// A nonzero canonical magnitude is not divisible by the base.
proof fn lemma_canonical_last_mod(m: FixedModel)
    requires
        m.canonical(),
        m.words.len() > 0,
    ensures
        mag(m.words) % (BASE as nat) != 0,
        mag(m.words) > 0,
{
    lemma_mag_last(m.words);
    lemma_mag_all_zero(m.words);
}

/// Two canonical models with the same value are the same model. This is what
/// makes "canonical and value-correct" a complete specification of a result,
/// and it is why trimming twice changes nothing beyond the first time.
pub proof fn lemma_canonical_unique(a: FixedModel, b: FixedModel)
    requires
        a.canonical(),
        b.canonical(),
        same_value(a, b),
    ensures
        a == b,
{
    let c = common_scale(a, b);
    let ea = (32 * a.lo() + c) as nat;
    let eb = (32 * b.lo() + c) as nat;
    lemma_pow2_pos(ea);
    lemma_pow2_pos(eb);
    lemma_mag_all_zero(a.words);
    lemma_mag_all_zero(b.words);
    if a.is_zero_val() || b.is_zero_val() {
        assert(a.smag() * pow2(ea) == 0 <==> a.smag() == 0) by (nonlinear_arith)
            requires
                pow2(ea) > 0,
        ;
        assert(b.smag() * pow2(eb) == 0 <==> b.smag() == 0) by (nonlinear_arith)
            requires
                pow2(eb) > 0,
        ;
        assert(a.words =~= b.words);
        assert(a =~= b);
    } else {
        // Both nonzero: the signs must agree.
        assert(a.smag() * pow2(ea) > 0 <==> a.smag() > 0) by (nonlinear_arith)
            requires
                pow2(ea) > 0,
        ;
        assert(b.smag() * pow2(eb) > 0 <==> b.smag() > 0) by (nonlinear_arith)
            requires
                pow2(eb) > 0,
        ;
        assert(a.sign == b.sign);
        // Equal magnitudes once scaled: mag(a) * 2^ea == mag(b) * 2^eb.
        let ma = mag(a.words);
        let mb = mag(b.words);
        assert(a.smag() * pow2(ea) == b.smag() * pow2(eb));
        assert(ma * pow2(ea) == mb * pow2(eb)) by (nonlinear_arith)
            requires
                a.smag() * pow2(ea) == b.smag() * pow2(eb),
                a.sign == b.sign,
                a.smag() == if a.sign { -(ma as int) } else { ma as int },
                b.smag() == if b.sign { -(mb as int) } else { mb as int },
        ;
        if ea > eb {
            lemma_canonical_last_mod(b);
            lemma_shifted_magnitude_divisible(ma, mb, ea, eb, (a.lo() - b.lo()) as nat);
        } else if eb > ea {
            lemma_canonical_last_mod(a);
            lemma_shifted_magnitude_divisible(mb, ma, eb, ea, (b.lo() - a.lo()) as nat);
        }
        assert(ea == eb);
        assert(ma * pow2(ea) == mb * pow2(ea) ==> ma == mb) by (nonlinear_arith)
            requires
                pow2(ea) > 0,
        ;
        // Same magnitude and both trimmed: same width, then same words.
        lemma_canonical_width(a.words, b.words);
        assert(a.lo() == b.lo());
        assert(a =~= b);
    }
}

/// If a magnitude equals another one shifted up by a whole number of words,
/// the larger one is divisible by the base.
proof fn lemma_shifted_magnitude_divisible(ma: nat, mb: nat, ea: nat, eb: nat, d: nat)
    requires
        ma * pow2(ea) == mb * pow2(eb),
        ea > eb,
        ea - eb == 32 * d,
    ensures
        mb % (BASE as nat) == 0,
{
    lemma_pow2_adds(eb, (ea - eb) as nat);
    assert((ma * pow2((ea - eb) as nat)) * pow2(eb) == ma * pow2(ea)) by (nonlinear_arith)
        requires
            pow2(ea) == pow2(eb) * pow2((ea - eb) as nat),
    ;
    lemma_pow2_pos(eb);
    assert(mb == ma * pow2((ea - eb) as nat)) by (nonlinear_arith)
        requires
            mb * pow2(eb) == (ma * pow2((ea - eb) as nat)) * pow2(eb),
            pow2(eb) > 0,
    ;
    let k = (d - 1) as nat;
    lemma_pow2_adds(32 * k, 32);
    lemma2_to64();
    assert(32 * d == 32 * k + 32);
    assert(mb == (ma * pow2(32 * k)) * (BASE as nat)) by (nonlinear_arith)
        requires
            mb == ma * (pow2(32 * k) * (BASE as nat)),
    ;
    assert(((ma * pow2(32 * k)) * (BASE as nat)) % (BASE as nat) == 0) by (nonlinear_arith);
}

/// Trimmed nonzero buffers with equal magnitude have equal length and words.
proof fn lemma_canonical_width(s: Seq<u32>, t: Seq<u32>)
    requires
        s.len() > 0,
        t.len() > 0,
        s[0] != 0,
        t[0] != 0,
        mag(s) == mag(t),
    ensures
        s.len() == t.len(),
        s =~= t,
{
    if s.len() < t.len() {
        lemma_mag_bound(s);
        lemma_mag_lower_bound(t);
        if 32 * s.len() < 32 * (t.len() - 1) {
            lemma_pow2_strictly_increases(32 * s.len(), 32 * (t.len() - 1) as nat);
        }
    } else if t.len() < s.len() {
        lemma_mag_bound(t);
        lemma_mag_lower_bound(s);
        if 32 * t.len() < 32 * (s.len() - 1) {
            lemma_pow2_strictly_increases(32 * t.len(), 32 * (s.len() - 1) as nat);
        }
    }
    lemma_mag_injective(s, t);
}

} // verus!
