//! Bit-exact binary32 conversion. A finite float value is an integer
//! multiple of 2^-149, so scaling by 2^160 turns every finite value into an
//! exact integer; `models_f32` ties a fixed-point model to a float bit
//! pattern through that integer. Conversion from bits is exact; conversion
//! to bits truncates excess precision toward zero and reproduces the bit
//! pattern exactly whenever the value is representable.
use crate::fixed::{FixedDec, MAX_LEN};
use crate::magnitude::{
    lemma_mag_all_zero, lemma_mag_bound, lemma_mag_skip_unfold, lemma_mag_split, mag, BASE,
};
use crate::model::{
    lemma_canonical_unique, lemma_same_at_common, lemma_same_value_zero, same_value, FixedModel,
};
use vstd::arithmetic::div_mod::{
    lemma_div_by_multiple, lemma_div_denominator, lemma_div_is_ordered, lemma_fundamental_div_mod,
    lemma_fundamental_div_mod_converse,
};
use vstd::arithmetic::power2::*;
use vstd::prelude::*;
use vstd::std_specs::bits::u32_leading_zeros;

verus! {

pub open spec fn f32_sign_field(bits: u32) -> bool {
    bits >> 31 == 1
}

pub open spec fn f32_exp_field(bits: u32) -> u32 {
    (bits >> 23) & 0xff
}

pub open spec fn f32_frac_field(bits: u32) -> u32 {
    bits & 0x7f_ffff
}

/// Finite: not an infinity and not a NaN.
pub open spec fn f32_is_finite(bits: u32) -> bool {
    f32_exp_field(bits) != 0xff
}

/// The encoded significand: subnormals have no implicit bit.
pub open spec fn f32_sig(bits: u32) -> nat {
    if f32_exp_field(bits) == 0 {
        f32_frac_field(bits) as nat
    } else {
        (f32_frac_field(bits) + 0x80_0000) as nat
    }
}

/// The significand's scale as a power of two, already offset by 160:
/// the magnitude times 2^160 is `f32_sig * 2^f32_sig_scale`.
pub open spec fn f32_sig_scale(bits: u32) -> nat {
    if f32_exp_field(bits) == 0 {
        11
    } else {
        (f32_exp_field(bits) + 10) as nat
    }
}

/// The float's magnitude times 2^160, an exact integer for every finite
/// value.
pub open spec fn f32_mag_scaled(bits: u32) -> nat {
    f32_sig(bits) * pow2(f32_sig_scale(bits))
}

/// `m` is the fixed-point image of the float bit pattern `bits`: same sign
/// flag, trimmed buffer, and the same value read at scale 2^160.
pub open spec fn models_f32(m: FixedModel, bits: u32) -> bool {
    &&& f32_is_finite(bits)
    &&& m.sign == f32_sign_field(bits)
    &&& (m.words.len() == 0 ==> m.point == 0)
    &&& (m.words.len() > 0 ==> m.words[0] != 0 && m.words.last() != 0)
    &&& m.scale_ok(160)
    &&& m.at_scale(160) == if f32_sign_field(bits) {
        -(f32_mag_scaled(bits) as int)
    } else {
        f32_mag_scaled(bits) as int
    }
}

/// Number of binary digits of a natural number; zero for zero.
pub open spec fn bit_len(v: nat) -> nat
    decreases v,
{
    if v == 0 {
        0
    } else {
        (1 + bit_len(v / 2)) as nat
    }
}

/// `floor(x * 2^e)`, for an exponent of either sign.
pub open spec fn shift_nat(x: nat, e: int) -> nat {
    if e >= 0 {
        x * pow2(e as nat)
    } else {
        x / pow2((-e) as nat)
    }
}

/// The binary32 bit pattern of `m` with excess precision truncated toward
/// zero: the magnitude's top 24 bits become the significand; a magnitude in
/// the subnormal range keeps only its bits at or above 2^-149; a magnitude
/// below that underflows to a signed zero, as does a zero buffer.
pub open spec fn f32_truncated(m: FixedModel) -> u32 {
    let sgn: u32 = if m.sign {
        0x8000_0000u32
    } else {
        0u32
    };
    let v = mag(m.words);
    if v == 0 {
        sgn
    } else {
        let emsb = 32 * m.lo() + bit_len(v) - 1;
        if emsb < -149 {
            sgn
        } else if emsb >= -126 {
            (sgn + (emsb + 127) * 0x80_0000 + (shift_nat(v, 24 - bit_len(v)) - 0x80_0000)) as u32
        } else {
            (sgn + shift_nat(v, 32 * m.lo() + 149)) as u32
        }
    }
}

/// A positive number sits between the powers of two fixed by its length.
proof fn lemma_bit_len_bounds(v: nat)
    requires
        v > 0,
    ensures
        bit_len(v) >= 1,
        pow2((bit_len(v) - 1) as nat) <= v < pow2(bit_len(v)),
    decreases v,
{
    lemma2_to64();
    lemma_fundamental_div_mod(v as int, 2);
    if v / 2 == 0 {
        assert(v == 1);
        assert(bit_len(0nat) == 0);
        assert(bit_len(1nat) == 1);
    } else {
        lemma_bit_len_bounds(v / 2);
        let b = bit_len(v / 2);
        assert(bit_len(v) == b + 1);
        lemma_pow2_adds((b - 1) as nat, 1);
        lemma_pow2_adds(b, 1);
        assert(pow2(b) == pow2((b - 1) as nat) * 2);
        assert(pow2(b + 1) == pow2(b) * 2);
        assert(v >= 2 * (v / 2));
        assert(v <= 2 * (v / 2) + 1);
    }
}

/// The length is pinned by any bracketing pair of powers.
proof fn lemma_bit_len_is(v: nat, n: nat)
    requires
        v > 0,
        n >= 1,
        pow2((n - 1) as nat) <= v < pow2(n),
    ensures
        bit_len(v) == n,
{
    lemma_bit_len_bounds(v);
    lemma_pow2_interval_unique(v, (bit_len(v) - 1) as nat, (n - 1) as nat);
}

/// Dividing by two powers in sequence divides by their product.
proof fn lemma_pow2_div_compose(x: nat, a: nat, b: nat)
    ensures
        (x / pow2(a)) / pow2(b) == x / pow2(a + b),
{
    lemma_pow2_pos(a);
    lemma_pow2_pos(b);
    lemma_pow2_adds(a, b);
    lemma_div_denominator(x as int, pow2(a) as int, pow2(b) as int);
}

/// Dividing a shifted value by a power either keeps a left shift or turns
/// into a right shift by the difference.
proof fn lemma_mul_pow2_div(x: nat, a: nat, b: nat)
    ensures
        b <= a ==> (x * pow2(a)) / pow2(b) == x * pow2((a - b) as nat),
        b > a ==> (x * pow2(a)) / pow2(b) == x / pow2((b - a) as nat),
{
    lemma_pow2_pos(a);
    lemma_pow2_pos(b);
    if b <= a {
        lemma_pow2_adds((a - b) as nat, b);
        assert(x * pow2(a) == (x * pow2((a - b) as nat)) * pow2(b)) by (nonlinear_arith)
            requires
                pow2(a) == pow2((a - b) as nat) * pow2(b),
        ;
        lemma_div_by_multiple((x * pow2((a - b) as nat)) as int, pow2(b) as int);
    } else {
        lemma_pow2_adds(a, (b - a) as nat);
        lemma_div_denominator(
            (x * pow2(a)) as int,
            pow2(a) as int,
            pow2((b - a) as nat) as int,
        );
        lemma_div_by_multiple(x as int, pow2(a) as int);
    }
}

/// A quotient is small when the dividend is.
proof fn lemma_div_lt(x: nat, a: nat, d: nat)
    requires
        x < a * d,
        d > 0,
    ensures
        x / d < a,
{
    lemma_fundamental_div_mod(x as int, d as int);
    if x / d >= a {
        assert((x / d) * d >= a * d) by (nonlinear_arith)
            requires
                x / d >= a,
                d > 0,
        ;
        assert(d * (x / d) == (x / d) * d) by (nonlinear_arith);
    }
}

/// Word index of the significand's lowest bit.
pub open spec fn fm_wl(bits: u32) -> int {
    f32_sig_scale(bits) as int / 32 - 5
}

/// Bit offset of the significand within its lowest word.
pub open spec fn fm_shift(bits: u32) -> nat {
    f32_sig_scale(bits) % 32
}

/// The significand shifted into word alignment; spans at most two words.
pub open spec fn fm_wide(bits: u32) -> nat {
    f32_sig(bits) * pow2(fm_shift(bits))
}

pub open spec fn fm_h(bits: u32) -> nat {
    fm_wide(bits) / (BASE as nat)
}

pub open spec fn fm_l(bits: u32) -> nat {
    fm_wide(bits) % (BASE as nat)
}

/// The trimmed fixed-point image of a finite float bit pattern.
pub open spec fn float_model(bits: u32) -> FixedModel {
    let sign = f32_sign_field(bits);
    let h = fm_h(bits) as u32;
    let l = fm_l(bits) as u32;
    if fm_h(bits) != 0 {
        FixedModel {
            sign,
            point: fm_wl(bits) + 2,
            words: if fm_l(bits) != 0 {
                seq![h, l]
            } else {
                seq![h]
            },
        }
    } else if fm_l(bits) != 0 {
        FixedModel { sign, point: fm_wl(bits) + 1, words: seq![l] }
    } else {
        FixedModel { sign, point: 0, words: Seq::<u32>::empty() }
    }
}

/// The image really does model the bit pattern.
pub proof fn lemma_float_model(bits: u32)
    requires
        f32_is_finite(bits),
    ensures
        models_f32(float_model(bits), bits),
        float_model(bits).words.len() <= 2,
        -4 <= float_model(bits).point <= 5,
{
    let m = f32_sig(bits);
    let ep = f32_sig_scale(bits);
    let wl = fm_wl(bits);
    let sh = fm_shift(bits);
    let wide = fm_wide(bits);
    let h = fm_h(bits);
    let l = fm_l(bits);
    let fm = float_model(bits);
    assert(f32_frac_field(bits) < 0x80_0000) by (bit_vector);
    assert(f32_exp_field(bits) < 0x100) by (bit_vector);
    assert(11 <= ep <= 264);
    lemma_fundamental_div_mod(ep as int, 32);
    assert(ep == 32 * (ep as int / 32) + sh);
    assert(32 * wl == ep - sh - 160);
    lemma_fundamental_div_mod(wide as int, BASE as int);
    lemma2_to64();
    assert(wide == h * (BASE as nat) + l);
    lemma_pow2_pos(sh);
    lemma_pow2_pos(ep);
    // Magnitude of the stored words is wide, possibly divided by the base.
    assert(m < 0x100_0000);
    assert(pow2(sh) <= pow2(31)) by {
        if sh < 31 {
            lemma_pow2_strictly_increases(sh, 31);
        }
    }
    assert(wide <= 0xff_ffff * pow2(31)) by (nonlinear_arith)
        requires
            m <= 0xff_ffff,
            wide == m * pow2(sh),
            pow2(sh) <= pow2(31),
    ;
    assert(wide / (BASE as nat) < BASE as nat) by (nonlinear_arith)
        requires
            wide <= 0xff_ffff * 0x8000_0000,
            pow2(31) == 0x8000_0000,
    ;
    assert(h < BASE as nat);
    assert(l < BASE as nat);
    assert(mag(Seq::<u32>::empty()) == 0);
    if h != 0 {
        let hw = fm.words;
        if l != 0 {
            assert(hw.drop_last() =~= seq![h as u32]);
            assert(seq![h as u32].drop_last() =~= Seq::<u32>::empty());
            assert(mag(seq![h as u32]) == h);
            assert(mag(hw) == h * (BASE as nat) + l);
            assert(fm.lo() == wl);
        } else {
            assert(hw.drop_last() =~= Seq::<u32>::empty());
            assert(mag(hw) == h);
            assert(fm.lo() == wl + 1);
        }
    } else {
        assert(l == wide);
        if l != 0 {
            assert(fm.words.drop_last() =~= Seq::<u32>::empty());
            assert(mag(fm.words) == l);
            assert(fm.lo() == wl);
        } else {
            assert(wide == 0);
            assert(m == 0) by (nonlinear_arith)
                requires
                    wide == m * pow2(sh),
                    wide == 0,
                    pow2(sh) > 0,
            ;
            assert(mag(fm.words) == 0);
        }
    }
    // Scale bookkeeping: 32 * lo + 160 == ep - sh (+32 for a bare high word).
    if h != 0 || l != 0 {
        let e0 = (32 * fm.lo() + 160) as nat;
        if h != 0 && l == 0 {
            // words == [h], lo == wl + 1, magnitude h == wide / BASE
            assert(wide == h * (BASE as nat));
            assert(fm.lo() == wl + 1);
            assert(e0 == ep - sh + 32);
            lemma_pow2_adds((ep - sh) as nat, 32);
            assert(mag(fm.words) * pow2(e0) == wide * pow2((ep - sh) as nat)) by (nonlinear_arith)
                requires
                    wide == mag(fm.words) * (BASE as nat),
                    pow2(e0) == pow2((ep - sh) as nat) * (BASE as nat)
                        || pow2(e0) == (BASE as nat) * pow2((ep - sh) as nat),
                    pow2(e0) == pow2((ep - sh) as nat) * pow2(32),
                    pow2(32) == BASE as nat,
            ;
        } else {
            assert(mag(fm.words) == wide);
            assert(e0 == ep - sh);
        }
        // wide * 2^(ep - sh) == m * 2^ep
        lemma_pow2_adds(sh, (ep - sh) as nat);
        assert(wide * pow2((ep - sh) as nat) == m * pow2(ep)) by (nonlinear_arith)
            requires
                wide == m * pow2(sh),
                pow2(sh) * pow2((ep - sh) as nat) == pow2(ep),
        ;
        assert(mag(fm.words) * pow2((32 * fm.lo() + 160) as nat) == f32_mag_scaled(bits));
        if fm.sign {
            assert(fm.smag() * pow2((32 * fm.lo() + 160) as nat) == -(f32_mag_scaled(bits) as int))
                by (nonlinear_arith)
                requires
                    fm.smag() == -(mag(fm.words) as int),
                    mag(fm.words) * pow2((32 * fm.lo() + 160) as nat) == f32_mag_scaled(bits),
            ;
        }
    } else {
        assert(f32_mag_scaled(bits) == 0) by (nonlinear_arith)
            requires
                m == 0,
                f32_mag_scaled(bits) == m * pow2(ep),
        ;
        assert(fm.smag() == 0);
        assert(fm.at_scale(160) == 0) by (nonlinear_arith)
            requires
                fm.smag() == 0,
        ;
    }
}

/// The bit pattern is its three fields put back together.
proof fn lemma_f32_compose(b: u32)
    ensures
        b == (if b >> 31 == 1 {
            0x8000_0000u32
        } else {
            0u32
        }) + ((b >> 23) & 0xff) * 0x80_0000 + (b & 0x7f_ffff),
{
    assert(b == (if b >> 31 == 1 {
        0x8000_0000u32
    } else {
        0u32
    }) + ((b >> 23) & 0xff) * 0x80_0000 + (b & 0x7f_ffff)) by (bit_vector);
}

/// The leading-zero count brackets a nonzero word between two powers of
/// two.
proof fn lemma_lz_bounds(v: u32)
    requires
        v != 0,
    ensures
        u32_leading_zeros(v) <= 31,
        pow2((31 - u32_leading_zeros(v)) as nat) <= v < pow2((32 - u32_leading_zeros(v)) as nat),
{
    vstd::std_specs::bits::axiom_u32_leading_zeros(v);
    let lz = u32_leading_zeros(v);
    lemma2_to64();
    if lz == 0 {
        assert((v >> 31u32) & 1 != 0);
        vstd::bits::lemma_u32_shr_is_div(v, 31);
        assert(v as nat / pow2(31) >= 1) by {
            assert((v >> 31u32) != 0) by (bit_vector)
                requires
                    (v >> 31u32) & 1 != 0,
            ;
        }
        assert(v >= pow2(31)) by (nonlinear_arith)
            requires
                v as nat / pow2(31) >= 1,
                pow2(31) > 0,
        ;
    } else {
        vstd::bits::lemma_u32_shr_is_div(v, (32 - lz) as u32);
        assert(v as nat / pow2((32 - lz) as nat) == 0);
        lemma_pow2_pos((32 - lz) as nat);
        assert(v < pow2((32 - lz) as nat)) by (nonlinear_arith)
            requires
                v as nat / pow2((32 - lz) as nat) == 0,
                pow2((32 - lz) as nat) > 0,
        ;
        assert((v >> ((31 - lz) as u32)) != 0) by (bit_vector)
            requires
                (v >> ((31 - lz) as u32)) & 1 != 0,
        ;
        vstd::bits::lemma_u32_shr_is_div(v, (31 - lz) as u32);
        lemma_pow2_pos((31 - lz) as nat);
        assert(v >= pow2((31 - lz) as nat)) by (nonlinear_arith)
            requires
                v as nat / pow2((31 - lz) as nat) >= 1,
                pow2((31 - lz) as nat) > 0,
        ;
    }
}

/// Two bracketing powers of two agree on the exponent.
proof fn lemma_pow2_interval_unique(x: nat, a: nat, b: nat)
    requires
        pow2(a) <= x < pow2(a + 1),
        pow2(b) <= x < pow2(b + 1),
    ensures
        a == b,
{
    if a + 1 <= b {
        if a + 1 < b {
            lemma_pow2_strictly_increases(a + 1, b);
        }
        assert(false);
    } else if b + 1 <= a {
        if b + 1 < a {
            lemma_pow2_strictly_increases(b + 1, a);
        }
        assert(false);
    }
}

/// Recovers the float fields from a nonzero model of a finite bit pattern:
/// the word scan, leading-zero count and 24-bit window of the conversion
/// algorithm land exactly on the original significand and exponent.
proof fn lemma_recover(m: FixedModel, b: u32)
    requires
        models_f32(m, b),
        !m.is_zero_val(),
    ensures
        m.words.len() >= 1,
        m.words[0] != 0,
        m.sign == f32_sign_field(b),
        ({
            let v = m.words[0];
            let lz = u32_leading_zeros(v) as int;
            let wide: nat = (v as nat) * (BASE as nat) + (crate::fixed::word_at(m, 1) as nat);
            let emsb = 32 * (m.point - 1) + 31 - lz;
            let m24: nat = wide / pow2((40 - lz) as nat);
            &&& m24 < 0x100_0000
            &&& (f32_exp_field(b) != 0 ==> emsb == f32_exp_field(b) - 127 && m24 == f32_sig(b))
            &&& (f32_exp_field(b) == 0 ==> -149 <= emsb <= -127 && m24 / pow2(
                (-126 - emsb) as nat,
            ) == f32_frac_field(b))
        }),
{
    lemma_float_model(b);
    let fm = float_model(b);
    // A nonzero trimmed model of `b` is the float image itself.
    assert(fm.at_scale(160) == m.at_scale(160));
    lemma_same_at_common(m, fm, 160);
    if fm.is_zero_val() {
        lemma_same_value_zero(m, fm);
        lemma_mag_all_zero(m.words);
        assert(false);
    }
    assert(m.words.len() > 0) by {
        if m.words.len() == 0 {
            lemma_mag_all_zero(m.words);
        }
    }
    assert(m.canonical());
    assert(fm.canonical()) by {
        lemma_mag_all_zero(fm.words);
    }
    lemma_canonical_unique(m, fm);
    // From here on reason about the concrete image.
    let s = f32_sig(b);
    let ep = f32_sig_scale(b);
    let sh = fm_shift(b);
    let wl = fm_wl(b);
    let wde = fm_wide(b);
    let h = fm_h(b);
    let l = fm_l(b);
    lemma_fundamental_div_mod(wde as int, BASE as int);
    lemma2_to64();
    lemma_fundamental_div_mod(ep as int, 32);
    assert(32 * wl == ep - sh - 160);
    assert(f32_frac_field(b) < 0x80_0000) by (bit_vector);
    assert(f32_exp_field(b) < 0x100) by (bit_vector);
    assert(s < 0x100_0000);
    assert(pow2(sh) <= pow2(31)) by {
        if sh < 31 {
            lemma_pow2_strictly_increases(sh, 31);
        }
    }
    assert(wde <= 0xff_ffff * pow2(31)) by (nonlinear_arith)
        requires
            s <= 0xff_ffff,
            wde == s * pow2(sh),
            pow2(sh) <= pow2(31),
    ;
    assert(wde / (BASE as nat) < BASE as nat) by (nonlinear_arith)
        requires
            wde <= 0xff_ffff * 0x8000_0000,
            pow2(31) == 0x8000_0000,
    ;
    assert(h < BASE as nat);
    assert(l < BASE as nat);
    let v = m.words[0];
    let w1 = crate::fixed::word_at(m, 1);
    let wide: nat = (v as nat) * (BASE as nat) + (w1 as nat);
    // wide == s * 2^q with q = sh, or sh + 32 when only the low word exists.
    let q: nat = if h != 0 {
        sh
    } else {
        (sh + 32) as nat
    };
    if h != 0 {
        assert(v == h as u32);
        if l != 0 {
            assert(w1 == l as u32);
        } else {
            assert(w1 == 0);
        }
        assert(wide == wde);
        assert(m.point == wl + 2);
    } else {
        assert(v == l as u32);
        assert(w1 == 0);
        assert(wide == wde * (BASE as nat));
        assert(m.point == wl + 1);
    }
    lemma_pow2_adds(sh, 32);
    assert(wide == s * pow2(q)) by (nonlinear_arith)
        requires
            wde == s * pow2(sh),
            (q == sh && wide == wde) || (q == sh + 32 && wide == wde * (BASE as nat) && pow2(
                (sh + 32) as nat,
            ) == pow2(sh) * (BASE as nat)),
    ;
    // Bracket wide by the leading zeros of its top word.
    lemma_lz_bounds(v);
    let lz = u32_leading_zeros(v) as int;
    assert(v >= 1);
    assert(pow2((63 - lz) as nat) == pow2((31 - lz) as nat) * (BASE as nat)) by {
        lemma_pow2_adds((31 - lz) as nat, 32);
    }
    assert(pow2((64 - lz) as nat) == pow2((32 - lz) as nat) * (BASE as nat)) by {
        lemma_pow2_adds((32 - lz) as nat, 32);
    }
    assert(pow2((63 - lz) as nat) <= wide < pow2((64 - lz) as nat)) by (nonlinear_arith)
        requires
            pow2((31 - lz) as nat) <= v < pow2((32 - lz) as nat),
            v * (BASE as nat) <= wide < (v + 1) * (BASE as nat),
            pow2((63 - lz) as nat) == pow2((31 - lz) as nat) * (BASE as nat),
            pow2((64 - lz) as nat) == pow2((32 - lz) as nat) * (BASE as nat),
    ;
    // The significand sits j bits above its lowest word bit.
    assert(s >= 1) by {
        if s == 0 {
            assert(wide == 0) by (nonlinear_arith)
                requires
                    wide == s * pow2(q),
                    s == 0,
            ;
            assert((v as nat) * (BASE as nat) >= BASE as nat) by (nonlinear_arith)
                requires
                    v >= 1,
            ;
        }
    }
    assert(wide >= pow2(q)) by (nonlinear_arith)
        requires
            wide == s * pow2(q),
            s >= 1,
    ;
    assert(q <= 63 - lz) by {
        if q > 63 - lz {
            lemma_pow2_strictly_increases((63 - lz + 1) as nat, (q + 1) as nat);
            if (63 - lz) as nat + 1 < q {
                lemma_pow2_strictly_increases(((63 - lz) + 1) as nat, q);
            }
            assert(pow2(q) >= pow2((64 - lz) as nat)) by {
                if q > (64 - lz) {
                    lemma_pow2_strictly_increases((64 - lz) as nat, q);
                }
            }
        }
    }
    let j = 63 - lz - q;
    // 2^j <= s < 2^(j+1)
    lemma_pow2_adds(j as nat, q);
    lemma_pow2_adds((j + 1) as nat, q);
    lemma_pow2_pos(q);
    assert(pow2(j as nat) <= s < pow2((j + 1) as nat)) by (nonlinear_arith)
        requires
            pow2((63 - lz) as nat) <= wide < pow2((64 - lz) as nat),
            wide == s * pow2(q),
            pow2((63 - lz) as nat) == pow2(j as nat) * pow2(q),
            pow2((64 - lz) as nat) == pow2((j + 1) as nat) * pow2(q),
            pow2(q) > 0,
    ;
    // j < 24 because s < 2^24.
    assert(s < 0x100_0000);
    assert(pow2(24) == 0x100_0000);
    assert(j <= 23) by {
        if j >= 24 {
            if j > 24 {
                lemma_pow2_strictly_increases(24, j as nat);
            }
            assert(pow2(j as nat) >= pow2(24));
        }
    }
    // The 24-bit window recovers s shifted to the top: m24 == s * 2^(23 - j).
    let m24: nat = wide / pow2((40 - lz) as nat);
    assert(40 - lz == q + j - 23);
    lemma_pow2_adds((23 - j) as nat, (q + j - 23) as nat);
    assert(wide == (s * pow2((23 - j) as nat)) * pow2((q + j - 23) as nat)) by (nonlinear_arith)
        requires
            wide == s * pow2(q),
            pow2(q) == pow2((23 - j) as nat) * pow2((q + j - 23) as nat),
    ;
    lemma_pow2_pos((q + j - 23) as nat);
    lemma_div_by_multiple((s * pow2((23 - j) as nat)) as int, pow2((q + j - 23) as nat) as int);
    assert(m24 == s * pow2((23 - j) as nat));
    assert(pow2((j + 1) as nat) * pow2((23 - j) as nat) == pow2(24)) by {
        lemma_pow2_adds((j + 1) as nat, (23 - j) as nat);
    }
    assert(m24 < 0x100_0000) by (nonlinear_arith)
        requires
            m24 == s * pow2((23 - j) as nat),
            s < pow2((j + 1) as nat),
            pow2((j + 1) as nat) * pow2((23 - j) as nat) == pow2(24),
            pow2(24) == 0x100_0000,
    ;
    // The exponent of the most significant bit.
    let emsb = 32 * (m.point - 1) + 31 - lz;
    assert(emsb == (ep - 160) + j);
    if f32_exp_field(b) != 0 {
        // Normal: s has its top bit at 23, so j == 23 and m24 == s.
        assert(s >= 0x80_0000);
        assert(pow2(23) == 0x80_0000);
        assert(j == 23) by {
            if j < 23 {
                assert(pow2((j + 1) as nat) <= pow2(23)) by {
                    if j + 1 < 23 {
                        lemma_pow2_strictly_increases((j + 1) as nat, 23);
                    }
                }
            }
        }
        assert(pow2(0) == 1);
        assert((23 - j) as nat == 0);
        assert(s * pow2((23 - j) as nat) == s) by (nonlinear_arith)
            requires
                (23 - j) as nat == 0,
                pow2(0) == 1,
        ;
        assert(m24 == s);
        assert(emsb == f32_exp_field(b) - 127);
    } else {
        // Subnormal: s < 2^23, so j <= 22 and the deficit shift restores f.
        assert(s < 0x80_0000);
        assert(pow2(23) == 0x80_0000);
        assert(j <= 22) by {
            if j >= 23 {
                assert(pow2(j as nat) >= pow2(23)) by {
                    if j > 23 {
                        lemma_pow2_strictly_increases(23, j as nat);
                    }
                }
            }
        }
        assert(emsb == -149 + j);
        assert(-149 <= emsb <= -127);
        assert(-126 - emsb == 23 - j);
        lemma_pow2_pos((23 - j) as nat);
        lemma_div_by_multiple(s as int, pow2((23 - j) as nat) as int);
        assert(m24 / pow2((23 - j) as nat) == s);
    }
}

/// What the word scan and the window division compute, for any buffer with
/// a nonzero word: the zero prefix drops out of the magnitude, the first
/// nonzero word's leading zeros fix the magnitude's bit length, and
/// dividing the two-word window extracts the magnitude's top 24 bits.
proof fn lemma_extract(m: FixedModel, sk: int)
    requires
        0 <= sk < m.words.len(),
        forall|k: int| 0 <= k < sk ==> m.words[k] == 0,
        m.words[sk] != 0,
    ensures
        ({
            let v = m.words[sk];
            let lz = u32_leading_zeros(v) as int;
            let wide: nat = (v as nat) * (BASE as nat) + (crate::fixed::word_at(m, sk + 1) as nat);
            let bl = bit_len(mag(m.words));
            &&& mag(m.words) > 0
            &&& bl == 32 * (m.words.len() - sk) - lz
            &&& wide / pow2((40 - lz) as nat) == shift_nat(mag(m.words), 24 - bl)
        }),
{
    let n = m.words.len() as int;
    let s = m.words.skip(sk);
    let q = n - sk;
    let v = m.words[sk];
    let lz = u32_leading_zeros(v) as int;
    let w1: nat = crate::fixed::word_at(m, sk + 1) as nat;
    let wide: nat = (v as nat) * (BASE as nat) + w1;
    lemma2_to64();
    // The zero prefix contributes nothing.
    lemma_mag_split(m.words, sk);
    lemma_mag_all_zero(m.words.take(sk));
    assert(forall|k: int|
        0 <= k < m.words.take(sk).len() ==> #[trigger] m.words.take(sk)[k] == 0);
    assert(mag(m.words.take(sk)) == 0);
    assert(mag(m.words) == mag(s)) by {
        assert(mag(m.words.take(sk)) * pow2(32 * (m.words.len() - sk) as nat) == 0)
            by (nonlinear_arith)
            requires
                mag(m.words.take(sk)) == 0,
        ;
    }
    let vv = mag(s);
    // Bracket the magnitude by its leading word.
    assert(s.skip(0) =~= s);
    lemma_mag_skip_unfold(s, 0);
    lemma_mag_bound(s.skip(1));
    lemma_lz_bounds(v);
    assert(s[0] == v);
    let p1 = pow2((32 * (q - 1)) as nat);
    lemma_pow2_pos((32 * (q - 1)) as nat);
    assert(vv == (v as nat) * p1 + mag(s.skip(1)));
    assert(vv < ((v as nat) + 1) * p1) by (nonlinear_arith)
        requires
            vv == (v as nat) * p1 + mag(s.skip(1)),
            mag(s.skip(1)) < p1,
    ;
    lemma_pow2_adds((31 - lz) as nat, (32 * (q - 1)) as nat);
    lemma_pow2_adds((32 - lz) as nat, (32 * (q - 1)) as nat);
    assert(pow2((31 - lz) as nat) * p1 <= (v as nat) * p1) by (nonlinear_arith)
        requires
            pow2((31 - lz) as nat) <= v as nat,
            p1 > 0,
    ;
    assert((v as nat) * p1 <= vv) by (nonlinear_arith)
        requires
            vv == (v as nat) * p1 + mag(s.skip(1)),
    ;
    assert(((v as nat) + 1) * p1 <= pow2((32 - lz) as nat) * p1) by (nonlinear_arith)
        requires
            (v as nat) + 1 <= pow2((32 - lz) as nat),
            p1 > 0,
    ;
    let bl = (32 * q - lz) as nat;
    assert((31 - lz) as nat + (32 * (q - 1)) as nat == (bl - 1) as nat);
    assert((32 - lz) as nat + (32 * (q - 1)) as nat == bl);
    assert(vv > 0) by (nonlinear_arith)
        requires
            (v as nat) * p1 <= vv,
            v >= 1,
            p1 >= 1,
    ;
    lemma_bit_len_is(vv, bl);
    // The window division extracts the top 24 bits.
    if q == 1 {
        assert(w1 == 0);
        assert(s.skip(1) =~= Seq::<u32>::empty());
        assert(mag(Seq::<u32>::empty()) == 0);
        assert(pow2(0) == 1);
        assert(vv == v as nat);
        assert(wide == (v as nat) * pow2(32));
        lemma_mul_pow2_div(v as nat, 32, (40 - lz) as nat);
        if lz >= 8 {
            assert(wide / pow2((40 - lz) as nat) == (v as nat) * pow2((lz - 8) as nat));
            assert(24 - bl == lz - 8);
        } else {
            assert(wide / pow2((40 - lz) as nat) == (v as nat) / pow2((8 - lz) as nat));
            assert(24 - bl == lz - 8);
        }
    } else {
        assert(w1 == m.words[sk + 1]);
        assert(s[1] == m.words[sk + 1]);
        assert(s.take(2).drop_last() =~= s.take(1));
        assert(s.take(1).drop_last() =~= Seq::<u32>::empty());
        assert(mag(Seq::<u32>::empty()) == 0);
        assert(s.take(1).last() == v);
        assert(mag(s.take(1)) == v as nat);
        assert(s.take(2).last() == s[1]);
        assert(mag(s.take(2)) == wide);
        lemma_mag_split(s, 2);
        lemma_mag_bound(s.skip(2));
        let g = (32 * (q - 2)) as nat;
        lemma_pow2_pos(g);
        assert(vv == wide * pow2(g) + mag(s.skip(2)));
        lemma_fundamental_div_mod_converse(
            vv as int,
            pow2(g) as int,
            wide as int,
            mag(s.skip(2)) as int,
        );
        assert(vv / pow2(g) == wide);
        lemma_pow2_div_compose(vv, g, (40 - lz) as nat);
        assert(g + (40 - lz) as nat == (bl - 24) as nat);
        assert(bl >= 33);
        assert(shift_nat(vv, 24 - bl) == vv / pow2((bl - 24) as nat));
        assert(wide / pow2((40 - lz) as nat) == vv / pow2((bl - 24) as nat));
    }
}

/// The top 24 bits of a positive magnitude form a 24-bit number with its
/// leading bit set.
proof fn lemma_sig_range(v: nat)
    requires
        v > 0,
    ensures
        pow2(23) <= shift_nat(v, 24 - bit_len(v)) < pow2(24),
{
    let bl = bit_len(v);
    lemma_bit_len_bounds(v);
    lemma2_to64();
    if bl <= 24 {
        let e = (24 - bl) as nat;
        lemma_pow2_adds((bl - 1) as nat, e);
        lemma_pow2_adds(bl, e);
        lemma_pow2_pos(e);
        assert(pow2((bl - 1) as nat) * pow2(e) <= v * pow2(e)) by (nonlinear_arith)
            requires
                pow2((bl - 1) as nat) <= v,
                pow2(e) > 0,
        ;
        assert(v * pow2(e) < pow2(bl) * pow2(e)) by (nonlinear_arith)
            requires
                v < pow2(bl),
                pow2(e) > 0,
        ;
        assert((bl - 1) as nat + e == 23);
        assert(bl + e == 24);
    } else {
        let e = (bl - 24) as nat;
        lemma_pow2_pos(e);
        lemma_pow2_adds(23, e);
        lemma_pow2_adds(24, e);
        lemma_div_is_ordered((pow2(23) * pow2(e)) as int, v as int, pow2(e) as int);
        lemma_div_by_multiple(pow2(23) as int, pow2(e) as int);
        lemma_div_lt(v, pow2(24), pow2(e));
    }
}

/// Shifting the 24-bit window further down composes into a single shift of
/// the magnitude.
proof fn lemma_window_shift(v: nat, d: nat)
    requires
        v > 0,
        d >= 1,
    ensures
        shift_nat(v, 24 - bit_len(v)) / pow2(d) == shift_nat(v, 24 - bit_len(v) - d),
{
    let bl = bit_len(v);
    lemma_bit_len_bounds(v);
    if bl <= 24 {
        lemma_mul_pow2_div(v, (24 - bl) as nat, d);
    } else {
        lemma_pow2_div_compose(v, (bl - 24) as nat, d);
        assert((bl - 24) as nat + d == (-(24 - bl as int - d)) as nat);
    }
}

impl FixedDec {
    /// Builds the exact fixed-point image of a finite binary32 bit pattern:
    /// the significand is placed at its absolute bit position, split across
    /// at most two words, trimmed, with the float's sign flag (a negative
    /// zero keeps its sign flag over an empty buffer).
    pub fn from_f32_bits(bits: u32) -> (r: FixedDec)
        requires
            f32_is_finite(bits),
        ensures
            models_f32(r@, bits),
            r@ == float_model(bits),
            r@.words.len() <= 2,
            -4 <= r@.point <= 5,
    {
        let sign = (bits >> 31) == 1;
        let e: u32 = (bits >> 23) & 0xff;
        let f: u32 = bits & 0x7f_ffff;
        proof {
            assert(bits & 0x7f_ffff < 0x80_0000) by (bit_vector);
            assert((bits >> 23) & 0xff < 0x100) by (bit_vector);
        }
        let m: u32 = if e == 0 {
            f
        } else {
            f + 0x80_0000
        };
        let ep: u32 = if e == 0 {
            11
        } else {
            e + 10
        };
        let wl: i32 = (ep / 32) as i32 - 5;
        let sh: u32 = ep % 32;
        proof {
            lemma2_to64();
            assert(pow2(sh as nat) <= pow2(31)) by {
                if (sh as nat) < 31 {
                    lemma_pow2_strictly_increases(sh as nat, 31);
                }
            }
            assert((m as nat) * pow2(sh as nat) <= 0xff_ffff * 0x8000_0000) by (nonlinear_arith)
                requires
                    m <= 0xff_ffff,
                    pow2(sh as nat) <= 0x8000_0000,
            ;
            vstd::bits::lemma_u64_shl_is_mul(m as u64, sh as u64);
        }
        let wide: u64 = (m as u64) << sh;
        proof {
            vstd::bits::lemma_u64_shr_is_div(wide, 32);
            assert(wide as nat / pow2(32) < BASE as nat) by (nonlinear_arith)
                requires
                    wide <= 0xff_ffff * 0x8000_0000,
                    pow2(32) == BASE as nat,
            ;
        }
        let h: u32 = (wide >> 32) as u32;
        let l: u32 = (wide % BASE) as u32;
        proof {
            assert(h as nat == fm_h(bits));
            assert(l as nat == fm_l(bits));
            assert(m as nat == f32_sig(bits));
            assert(ep as nat == f32_sig_scale(bits));
            assert(wl as int == fm_wl(bits));
        }
        let mut parts: Vec<u32> = Vec::new();
        let dec: i32;
        if h != 0 {
            parts.push(h);
            if l != 0 {
                parts.push(l);
            }
            dec = wl + 2;
        } else if l != 0 {
            parts.push(l);
            dec = wl + 1;
        } else {
            dec = 0;
        }
        let r = FixedDec::from_parts(sign, dec, parts);
        proof {
            assert(r@.words =~= float_model(bits).words);
            assert(r@ =~= float_model(bits));
            lemma_float_model(bits);
        }
        r
    }

    /// The binary32 bit pattern of this value with excess precision
    /// truncated toward zero: the magnitude's top 24 bits become the
    /// significand, values below the subnormal range underflow to a signed
    /// zero, and a zero buffer keeps its sign flag. Whenever the value is
    /// exactly representable the original bit pattern comes back.
    #[verifier::rlimit(100)]
    pub fn to_f32_bits(&self) -> (r: u32)
        requires
            self@.is_zero_val() || self@.point <= 4,
            self@.words.len() <= MAX_LEN,
        ensures
            r == f32_truncated(self@),
            self@.is_zero_val() ==> r == (if self@.sign {
                0x8000_0000u32
            } else {
                0u32
            }),
            forall|b: u32| models_f32(self@, b) ==> r == b,
    {
        let ghost ma = self@;
        let sgn: u32 = if self.is_neg() {
            0x8000_0000
        } else {
            0
        };
        if self.is_zero() {
            proof {
                assert forall|b: u32| models_f32(ma, b) implies sgn == b by {
                    lemma_mag_all_zero(ma.words);
                    assert(ma.smag() == 0);
                    assert(ma.at_scale(160) == 0) by (nonlinear_arith)
                        requires
                            ma.smag() == 0,
                    ;
                    lemma_pow2_pos(f32_sig_scale(b));
                    assert(f32_sig(b) * pow2(f32_sig_scale(b)) == 0);
                    assert(f32_sig(b) == 0) by (nonlinear_arith)
                        requires
                            f32_sig(b) * pow2(f32_sig_scale(b)) == 0,
                            pow2(f32_sig_scale(b)) > 0,
                    ;
                    assert(f32_exp_field(b) == 0 && f32_frac_field(b) == 0);
                    lemma_f32_compose(b);
                }
                assert(sgn == f32_truncated(ma));
            }
            return sgn;
        }
        let n = self.parts().len();
        let mut sk: usize = 0;
        while sk < n && self.part(sk as i32) == 0
            invariant
                sk <= n,
                n == ma.words.len(),
                n <= MAX_LEN,
                self@ == ma,
                !ma.is_zero_val(),
                forall|k: int| 0 <= k < sk ==> ma.words[k] == 0,
            decreases n - sk,
        {
            sk += 1;
        }
        proof {
            if sk == n {
                lemma_mag_all_zero(ma.words);
            }
            assert(sk < n);
        }
        let v = self.part(sk as i32);
        proof {
            assert(v == ma.words[sk as int]);
            assert(v != 0);
            lemma_lz_bounds(v);
        }
        let lz: u32 = v.leading_zeros();
        let emsb: i64 = 32 * ((self.point() as i64) - (sk as i64) - 1) + (31 - lz) as i64;
        let ghost vv = mag(ma.words);
        let ghost bl = bit_len(vv);
        proof {
            assert(ma.point <= 4);
            lemma_extract(ma, sk as int);
            assert(vv > 0);
            assert(bl == 32 * (n - sk) - lz);
            assert(emsb as int == 32 * ma.lo() + bl - 1);
            // For any modelled bit pattern the scan stops at the first word.
            assert forall|b: u32| models_f32(ma, b) implies ma.words[0] != 0 && sk == 0 by {
                lemma_recover(ma, b);
            }
        }
        if emsb < -149 {
            proof {
                assert(sgn == f32_truncated(ma));
                assert forall|b: u32| models_f32(ma, b) implies sgn == b by {
                    lemma_recover(ma, b);
                }
            }
            return sgn;
        }
        let w1 = self.part(sk as i32 + 1);
        let wide: u64 = (v as u64) * BASE + (w1 as u64);
        let sh24: u32 = 40 - lz;
        proof {
            lemma2_to64();
            lemma2_to64_rest();
            lemma_pow2_pos(sh24 as nat);
            assert(pow2(sh24 as nat) <= pow2(40)) by {
                if (sh24 as nat) < 40 {
                    lemma_pow2_strictly_increases(sh24 as nat, 40);
                }
            }
            vstd::bits::lemma_u64_shl_is_mul(1u64, sh24 as u64);
        }
        let div24: u64 = 1u64 << sh24;
        let m24w: u64 = wide / div24;
        proof {
            // The 24-bit window fits in 24 bits for every input.
            assert(pow2((63 - lz) as nat) == pow2((31 - lz) as nat) * (BASE as nat)) by {
                lemma_pow2_adds((31 - lz) as nat, 32);
            }
            assert(pow2((64 - lz) as nat) == pow2((32 - lz) as nat) * (BASE as nat)) by {
                lemma_pow2_adds((32 - lz) as nat, 32);
            }
            assert((wide as nat) < pow2((64 - lz) as nat)) by (nonlinear_arith)
                requires
                    (v as nat) < pow2((32 - lz) as nat),
                    (wide as nat) < ((v as nat) + 1) * (BASE as nat),
                    pow2((64 - lz) as nat) == pow2((32 - lz) as nat) * (BASE as nat),
            ;
            assert(pow2((64 - lz) as nat) == 0x100_0000 * pow2(sh24 as nat)) by {
                lemma_pow2_adds(24, sh24 as nat);
            }
            vstd::arithmetic::div_mod::lemma_fundamental_div_mod(wide as int, div24 as int);
            assert(m24w < 0x100_0000) by (nonlinear_arith)
                requires
                    wide == div24 * m24w + wide % div24,
                    wide % div24 >= 0,
                    div24 > 0,
                    (wide as nat) < 0x100_0000 * (div24 as nat),
            ;
            // The window division is exactly the spec-level extraction.
            assert(w1 == crate::fixed::word_at(ma, sk + 1));
            assert(wide as nat == (v as nat) * (BASE as nat) + (crate::fixed::word_at(
                ma,
                sk + 1,
            ) as nat));
            assert(div24 as nat == pow2((40 - lz) as nat));
            assert(m24w as nat == shift_nat(vv, 24 - bl));
        }
        if emsb >= -126 {
            let e_field: u32 = (emsb + 127) as u32;
            let frac: u32 = (m24w as u32) % 0x80_0000;
            let r = sgn + e_field * 0x80_0000 + frac;
            proof {
                lemma_sig_range(vv);
                lemma_fundamental_div_mod_converse(
                    m24w as int,
                    0x80_0000,
                    1,
                    m24w - 0x80_0000,
                );
                assert(frac == m24w - 0x80_0000);
                assert(r == f32_truncated(ma));
                assert forall|b: u32| models_f32(ma, b) implies r == b by {
                    lemma_recover(ma, b);
                    lemma_f32_compose(b);
                    if f32_exp_field(b) != 0 {
                        assert(e_field == f32_exp_field(b));
                        assert(m24w == f32_sig(b));
                        assert(f32_sig(b) == f32_frac_field(b) + 0x80_0000);
                        assert(f32_frac_field(b) < 0x80_0000) by (bit_vector);
                        vstd::arithmetic::div_mod::lemma_fundamental_div_mod_converse(
                            f32_sig(b) as int,
                            0x80_0000,
                            1,
                            f32_frac_field(b) as int,
                        );
                        assert(frac == f32_frac_field(b));
                        assert(sgn == (if b >> 31 == 1 {
                            0x8000_0000u32
                        } else {
                            0u32
                        }));
                    } else {
                        // A subnormal pattern puts the top bit below -126.
                        assert(false);
                    }
                }
            }
            r
        } else {
            let d: u32 = ((-126) - emsb) as u32;
            proof {
                lemma2_to64();
                assert(pow2(d as nat) <= pow2(23)) by {
                    if (d as nat) < 23 {
                        lemma_pow2_strictly_increases(d as nat, 23);
                    }
                }
                vstd::bits::lemma_u32_shl_is_mul(1u32, d);
            }
            let divd: u32 = 1u32 << d;
            let frac: u32 = (m24w as u32) / divd;
            let r = sgn + frac;
            proof {
                lemma_window_shift(vv, d as nat);
                assert(frac as nat == shift_nat(vv, 24 - bl - d));
                assert(24 - (bl as int) - d == 32 * ma.lo() + 149);
                assert(frac < 0x80_0000) by {
                    lemma_pow2_adds(23, d as nat);
                    lemma_pow2_pos(d as nat);
                    assert(pow2(23) * pow2(d as nat) >= 0x100_0000) by (nonlinear_arith)
                        requires
                            pow2(23) == 0x80_0000,
                            pow2(d as nat) >= 2,
                    ;
                    assert(pow2(d as nat) >= 2) by {
                        if (d as nat) > 1 {
                            lemma_pow2_strictly_increases(1, d as nat);
                        }
                    }
                    lemma_div_lt(m24w as nat, pow2(23), pow2(d as nat));
                }
                assert(r == f32_truncated(ma));
                assert forall|b: u32| models_f32(ma, b) implies r == b by {
                    lemma_recover(ma, b);
                    lemma_f32_compose(b);
                    assert(f32_exp_field(b) == 0) by {
                        if f32_exp_field(b) != 0 {
                        }
                    }
                    assert(frac == f32_frac_field(b));
                    assert(f32_frac_field(b) < 0x80_0000) by (bit_vector);
                    assert(sgn == (if b >> 31 == 1 {
                        0x8000_0000u32
                    } else {
                        0u32
                    }));
                }
            }
            r
        }
    }
}

} // verus!
