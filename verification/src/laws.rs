//! Algebraic laws of the library, stated over the same models and
//! relations that the operations' contracts use, and proved once and for
//! all from those contracts.
use crate::codec::{encoding, lemma_encoding_len};
use crate::magnitude::{lemma_mag_bound, lemma_mag_split, mag};
use crate::model::{
    frac_scale, joint_scale, lemma_canonical_unique, lemma_same_at_common, muls_to, same_value,
    sums_to, FixedModel,
};
use vstd::arithmetic::power2::*;
use vstd::prelude::*;

verus! {

/// Trimming is idempotent: two canonical representations of one value are
/// the same representation, so a value that is already canonical is left
/// exactly as it is by any further trim.
pub proof fn lemma_trim_idempotent(a: FixedModel, b: FixedModel)
    requires
        a.canonical(),
        b.canonical(),
        same_value(a, b),
    ensures
        a == b,
{
    lemma_canonical_unique(a, b);
}

/// Additive inverse: a sum of a value and its negation trims to the
/// canonical zero.
pub proof fn lemma_add_inverse(a: FixedModel, r: FixedModel)
    requires
        sums_to(a, a.negated(), r),
        r.canonical(),
    ensures
        r == (FixedModel { sign: false, point: 0, words: Seq::<u32>::empty() }),
{
    let t = joint_scale(a, a.negated(), r);
    let e = (32 * a.lo() + t) as nat;
    assert(a.negated().at_scale(t) == -a.at_scale(t)) by (nonlinear_arith)
        requires
            a.negated().at_scale(t) == a.negated().smag() * pow2((32 * a.negated().lo()
                + t) as nat),
            a.at_scale(t) == a.smag() * pow2((32 * a.lo() + t) as nat),
            a.negated().lo() == a.lo(),
            a.negated().smag() == -a.smag(),
    ;
    assert(r.at_scale(t) == 0);
    lemma_pow2_pos((32 * r.lo() + t) as nat);
    assert(r.smag() == 0) by (nonlinear_arith)
        requires
            r.smag() * pow2((32 * r.lo() + t) as nat) == 0,
            pow2((32 * r.lo() + t) as nat) > 0,
    ;
    crate::magnitude::lemma_mag_all_zero(r.words);
    assert(r.words.len() == 0);
    assert(r =~= (FixedModel { sign: false, point: 0, words: Seq::<u32>::empty() }));
}

/// Additive identity: adding a zero-valued operand gives back the same
/// canonical value.
pub proof fn lemma_add_identity(a: FixedModel, z: FixedModel, r: FixedModel)
    requires
        a.canonical(),
        z.is_zero_val(),
        sums_to(a, z, r),
        r.canonical(),
    ensures
        r == a,
{
    let t = joint_scale(a, z, r);
    assert(z.smag() == 0);
    assert(z.at_scale(t) == 0) by (nonlinear_arith)
        requires
            z.smag() == 0,
    ;
    assert(r.at_scale(t) == a.at_scale(t));
    lemma_same_at_common(a, r, t);
    lemma_canonical_unique(a, r);
}

/// Multiplication sign rule: a nonzero product is negative exactly when the
/// factors' signs differ.
pub proof fn lemma_mul_sign(a: FixedModel, b: FixedModel, r: FixedModel)
    requires
        muls_to(a, b, r),
        r.canonical(),
    ensures
        r.is_zero_val() || r.sign == (a.sign != b.sign),
{
    let t = -32 * (a.lo() + b.lo());
    let e = (32 * r.lo() + t) as nat;
    lemma_pow2_pos(e);
    if !r.is_zero_val() {
        assert(mag(r.words) > 0);
        if r.sign {
            assert(r.at_scale(t) < 0) by (nonlinear_arith)
                requires
                    r.at_scale(t) == r.smag() * pow2(e),
                    r.smag() < 0,
                    pow2(e) > 0,
            ;
        } else {
            assert(r.at_scale(t) > 0) by (nonlinear_arith)
                requires
                    r.at_scale(t) == r.smag() * pow2(e),
                    r.smag() > 0,
                    pow2(e) > 0,
            ;
        }
        if a.sign != b.sign {
            assert(a.smag() * b.smag() <= 0) by (nonlinear_arith)
                requires
                    (a.smag() <= 0 && b.smag() >= 0) || (a.smag() >= 0 && b.smag() <= 0),
            ;
        } else {
            assert(a.smag() * b.smag() >= 0) by (nonlinear_arith)
                requires
                    (a.smag() <= 0 && b.smag() <= 0) || (a.smag() >= 0 && b.smag() >= 0),
            ;
        }
    }
}

/// Multiplying by a zero-valued operand gives the canonical zero.
pub proof fn lemma_mul_zero(a: FixedModel, b: FixedModel, r: FixedModel)
    requires
        muls_to(a, b, r),
        r.canonical(),
        a.is_zero_val() || b.is_zero_val(),
    ensures
        r == (FixedModel { sign: false, point: 0, words: Seq::<u32>::empty() }),
{
    let t = -32 * (a.lo() + b.lo());
    assert(a.smag() * b.smag() == 0) by (nonlinear_arith)
        requires
            a.smag() == 0 || b.smag() == 0,
    ;
    let e = (32 * r.lo() + t) as nat;
    lemma_pow2_pos(e);
    assert(r.smag() == 0) by (nonlinear_arith)
        requires
            r.smag() * pow2(e) == 0,
            pow2(e) > 0,
    ;
    crate::magnitude::lemma_mag_all_zero(r.words);
    assert(r.words.len() == 0);
    assert(r =~= (FixedModel { sign: false, point: 0, words: Seq::<u32>::empty() }));
}

/// Multiplication is commutative: the canonical products of the same two
/// factors, taken in either order, are the same representation.
pub proof fn lemma_mul_comm(a: FixedModel, b: FixedModel, r1: FixedModel, r2: FixedModel)
    requires
        muls_to(a, b, r1),
        r1.canonical(),
        r1.is_zero_val() || r1.lo() >= a.lo() + b.lo(),
        muls_to(b, a, r2),
        r2.canonical(),
        r2.is_zero_val() || r2.lo() >= b.lo() + a.lo(),
    ensures
        r1 == r2,
{
    let t = -32 * (a.lo() + b.lo());
    assert(b.smag() * a.smag() == a.smag() * b.smag()) by (nonlinear_arith);
    assert(r1.at_scale(t) == r2.at_scale(t));
    if r1.is_zero_val() || r2.is_zero_val() {
        let e1 = (32 * r1.lo() + t) as nat;
        let e2 = (32 * r2.lo() + t) as nat;
        lemma_pow2_pos(e1);
        lemma_pow2_pos(e2);
        if r1.is_zero_val() {
            assert(r2.smag() * pow2(e2) == 0) by (nonlinear_arith)
                requires
                    r1.smag() == 0,
                    r1.smag() * pow2(e1) == r2.smag() * pow2(e2),
            ;
            assert(r2.smag() == 0) by (nonlinear_arith)
                requires
                    r2.smag() * pow2(e2) == 0,
                    pow2(e2) > 0,
            ;
        } else {
            assert(r1.smag() * pow2(e1) == 0) by (nonlinear_arith)
                requires
                    r2.smag() == 0,
                    r1.smag() * pow2(e1) == r2.smag() * pow2(e2),
            ;
            assert(r1.smag() == 0) by (nonlinear_arith)
                requires
                    r1.smag() * pow2(e1) == 0,
                    pow2(e1) > 0,
            ;
        }
        crate::magnitude::lemma_mag_all_zero(r1.words);
        crate::magnitude::lemma_mag_all_zero(r2.words);
        assert(r1.words =~= r2.words);
        assert(r1 =~= r2);
    } else {
        lemma_same_at_common(r1, r2, t);
        lemma_canonical_unique(r1, r2);
    }
}

/// Dropping the fractional words moves the value toward zero by less than
/// one whole unit, read at the scale that makes the fraction whole.
proof fn lemma_trunc_bounds(a: FixedModel)
    ensures
        !a.whole_part().is_zero_val() ==> a.whole_part().lo() >= 0,
        a.frac_part().is_zero_val() ==> a.at_scale(frac_scale(a)) == a.whole_part().at_scale(
            frac_scale(a),
        ),
        !a.sign ==> a.whole_part().at_scale(frac_scale(a)) <= a.at_scale(frac_scale(a))
            < a.whole_part().at_scale(frac_scale(a)) + pow2(frac_scale(a) as nat),
        a.sign ==> a.whole_part().at_scale(frac_scale(a)) - pow2(frac_scale(a) as nat) < a.at_scale(
            frac_scale(a),
        ) <= a.whole_part().at_scale(frac_scale(a)),
{
    let k = a.whole_split();
    let n = a.words.len() as int;
    let t = frac_scale(a);
    let w = a.whole_part();
    let fw = a.words.skip(k);
    lemma_mag_split(a.words, k);
    lemma_mag_bound(fw);
    let ea = (32 * a.lo() + t) as nat;
    let ew = (32 * w.lo() + t) as nat;
    let g = (32 * (n - k)) as nat;
    assert(w.lo() == a.point - k);
    assert(ew == ea + g);
    lemma_pow2_adds(ea, g);
    assert(pow2(ew) == pow2(ea) * pow2(g));
    let magw = mag(w.words);
    let magf = mag(fw);
    if !w.is_zero_val() {
        assert(mag(Seq::<u32>::empty()) == 0);
        assert(w.words.len() > 0);
        assert(k >= 1);
        assert(a.point >= 1);
    }
    assert(mag(a.words) * pow2(ea) == magw * pow2(ew) + magf * pow2(ea)) by (nonlinear_arith)
        requires
            mag(a.words) == magw * pow2(g) + magf,
            pow2(ew) == pow2(ea) * pow2(g),
    ;
    // The fraction is smaller than one unit at scale t.
    lemma_pow2_pos(ea);
    if a.point > n {
        assert(fw =~= Seq::<u32>::empty());
        assert(magf == 0);
        lemma_pow2_pos(t as nat);
        assert(magf * pow2(ea) < pow2(t as nat)) by (nonlinear_arith)
            requires
                magf == 0,
                pow2(t as nat) > 0,
        ;
    } else {
        assert(g + ea <= t);
        assert(magf * pow2(ea) < pow2(g) * pow2(ea)) by (nonlinear_arith)
            requires
                magf < pow2(g),
                pow2(ea) > 0,
        ;
        lemma_pow2_adds(g, ea);
        assert(pow2(g + ea) <= pow2(t as nat)) by {
            if g + ea < t {
                lemma_pow2_strictly_increases((g + ea) as nat, t as nat);
            }
        }
    }
    if a.frac_part().is_zero_val() {
        assert(magf == 0);
        assert(magf * pow2(ea) == 0) by (nonlinear_arith)
            requires
                magf == 0,
        ;
    }
    if !a.sign {
        assert(a.at_scale(t) == magw * pow2(ew) + magf * pow2(ea));
        assert(magf * pow2(ea) >= 0) by (nonlinear_arith);
    } else {
        assert(a.smag() * pow2(ea) == -(mag(a.words) * pow2(ea))) by (nonlinear_arith)
            requires
                a.smag() == -(mag(a.words) as int),
        ;
        assert(w.smag() * pow2(ew) == -(magw * pow2(ew))) by (nonlinear_arith)
            requires
                w.smag() == -(magw as int),
        ;
        assert(magf * pow2(ea) >= 0) by (nonlinear_arith);
    }
}

/// For a nonzero canonical result with the same value as the whole part
/// (which sits at a non-negative scale), the result reads that value at
/// every non-negative fraction scale.
proof fn lemma_floor_transfer_same(w: FixedModel, r: FixedModel, t: int)
    requires
        same_value(w, r),
        r.canonical(),
        w.lo() >= 0,
        t >= 0,
    ensures
        r.at_scale(t) == w.at_scale(t),
{
    if r.is_zero_val() {
        crate::model::lemma_same_value_zero(w, r);
        assert(r.at_scale(t) == 0) by (nonlinear_arith)
            requires
                r.smag() == 0,
        ;
        assert(w.at_scale(t) == 0) by (nonlinear_arith)
            requires
                w.smag() == 0,
        ;
    } else {
        if r.lo() < 0 {
            let tp = -32 * r.lo();
            crate::model::lemma_same_value_at(w, r, tp);
            crate::model::lemma_scale_shift(w, 0, tp);
            crate::model::lemma_canonical_int_lo(r, w.at_scale(0));
        }
        crate::model::lemma_same_value_at(w, r, t);
    }
}

/// Likewise when the result is the whole part shifted by a whole unit
/// `d` (`-1` for the floor correction, `+1` for the ceiling step).
proof fn lemma_floor_transfer_step(w: FixedModel, u: FixedModel, r: FixedModel, t: int, d: int)
    requires
        sums_to(w, u, r),
        r.canonical(),
        w.lo() >= 0,
        u.point == 1,
        u.words =~= seq![1u32],
        d == if u.sign {
            -1int
        } else {
            1int
        },
        t >= 0,
    ensures
        r.at_scale(t) == w.at_scale(t) + d * pow2(t as nat),
{
    assert(u.lo() == 0);
    assert(u.words.drop_last() =~= Seq::<u32>::empty());
    assert(mag(Seq::<u32>::empty()) == 0);
    assert(mag(u.words) == mag(u.words.drop_last()) * (0x1_0000_0000 as nat) + u.words.last());
    assert(mag(u.words) == 1);
    assert(u.smag() == d);
    if r.is_zero_val() {
        crate::model::lemma_sums_to_at(w, u, r, 0);
        lemma2_to64();
        assert(r.at_scale(0) == 0) by (nonlinear_arith)
            requires
                r.smag() == 0,
        ;
        assert(u.at_scale(0) == d);
        assert(w.at_scale(0) == -d);
        crate::model::lemma_scale_shift(w, 0, t);
        assert(r.at_scale(t) == 0) by (nonlinear_arith)
            requires
                r.smag() == 0,
        ;
        assert(u.at_scale(t) == d * pow2(t as nat));
        assert((-d) * pow2(t as nat) + d * pow2(t as nat) == 0) by (nonlinear_arith);
    } else {
        if r.lo() < 0 {
            let tp = -32 * r.lo();
            crate::model::lemma_sums_to_at(w, u, r, tp);
            crate::model::lemma_scale_shift(w, 0, tp);
            assert(u.at_scale(tp) == d * pow2(tp as nat));
            assert(w.at_scale(0) * pow2(tp as nat) + d * pow2(tp as nat) == (w.at_scale(0) + d)
                * pow2(tp as nat)) by (nonlinear_arith);
            crate::model::lemma_canonical_int_lo(r, w.at_scale(0) + d);
        }
        crate::model::lemma_sums_to_at(w, u, r, t);
        assert(u.at_scale(t) == d * pow2(t as nat));
    }
}

/// A step of one whole unit away from a zero whole part lands exactly on
/// the signed unit.
proof fn lemma_step_from_zero(w: FixedModel, u: FixedModel, r: FixedModel, t: int, d: int)
    requires
        sums_to(w, u, r),
        r.canonical(),
        w.is_zero_val(),
        u.point == 1,
        u.words =~= seq![1u32],
        d == if u.sign {
            -1int
        } else {
            1int
        },
        t >= 0,
    ensures
        r.at_scale(t) == w.at_scale(t) + d * pow2(t as nat),
{
    lemma2_to64();
    assert(u.lo() == 0);
    assert(u.words.drop_last() =~= Seq::<u32>::empty());
    assert(mag(Seq::<u32>::empty()) == 0);
    assert(mag(u.words) == mag(u.words.drop_last()) * (0x1_0000_0000 as nat) + u.words.last());
    assert(mag(u.words) == 1);
    assert(u.smag() == d);
    let tj = crate::model::joint_scale(w, u, r);
    assert(tj >= 0);
    assert(w.smag() == 0);
    assert(w.at_scale(tj) == 0) by (nonlinear_arith)
        requires
            w.smag() == 0,
    ;
    assert(u.at_scale(tj) == d * pow2(tj as nat));
    assert(r.at_scale(tj) == u.at_scale(tj));
    assert(u.canonical());
    lemma_same_at_common(u, r, tj);
    lemma_canonical_unique(u, r);
    assert(r.at_scale(t) == d * pow2(t as nat));
    assert(w.at_scale(t) == 0) by (nonlinear_arith)
        requires
            w.smag() == 0,
    ;
}

/// Floor bound: the floored value never exceeds the value it came from.
pub proof fn lemma_floor_le(a: FixedModel, r: FixedModel)
    requires
        r.canonical(),
        (a.sign && !a.frac_part().is_zero_val()) ==> sums_to(
            a.whole_part(),
            crate::model::unit_model().negated(),
            r,
        ),
        !(a.sign && !a.frac_part().is_zero_val()) ==> same_value(a.whole_part(), r),
    ensures
        r.at_scale(frac_scale(a)) <= a.at_scale(frac_scale(a)),
{
    let t = frac_scale(a);
    let w = a.whole_part();
    lemma_trunc_bounds(a);
    lemma_pow2_pos(t as nat);
    if a.sign && !a.frac_part().is_zero_val() {
        if w.is_zero_val() {
            lemma_step_from_zero(w, crate::model::unit_model().negated(), r, t, -1);
        } else {
            lemma_floor_transfer_step(w, crate::model::unit_model().negated(), r, t, -1);
        }
        assert(w.at_scale(t) == 0 ==> r.at_scale(t) == -pow2(t as nat)) by (nonlinear_arith)
            requires
                r.at_scale(t) == w.at_scale(t) + (-1) * pow2(t as nat),
        ;
    } else {
        if w.is_zero_val() {
            assert(same_value(r, w));
            crate::model::lemma_same_value_zero(r, w);
            assert(w.at_scale(t) == 0) by (nonlinear_arith)
                requires
                    w.smag() == 0,
            ;
            assert(r.at_scale(t) == 0) by (nonlinear_arith)
                requires
                    r.smag() == 0,
            ;
        } else {
            lemma_floor_transfer_same(w, r, t);
        }
    }
}

/// Ceiling bound: the value never exceeds its ceiling.
pub proof fn lemma_ceil_ge(a: FixedModel, r: FixedModel)
    requires
        r.canonical(),
        (!a.sign && !a.frac_part().is_zero_val()) ==> sums_to(
            a.whole_part(),
            crate::model::unit_model(),
            r,
        ),
        !(!a.sign && !a.frac_part().is_zero_val()) ==> same_value(a.whole_part(), r),
    ensures
        a.at_scale(frac_scale(a)) <= r.at_scale(frac_scale(a)),
{
    let t = frac_scale(a);
    let w = a.whole_part();
    lemma_trunc_bounds(a);
    lemma_pow2_pos(t as nat);
    if !a.sign && !a.frac_part().is_zero_val() {
        if w.is_zero_val() {
            lemma_step_from_zero(w, crate::model::unit_model(), r, t, 1);
        } else {
            lemma_floor_transfer_step(w, crate::model::unit_model(), r, t, 1);
        }
    } else {
        if w.is_zero_val() {
            assert(same_value(r, w));
            crate::model::lemma_same_value_zero(r, w);
            assert(w.at_scale(t) == 0) by (nonlinear_arith)
                requires
                    w.smag() == 0,
            ;
            assert(r.at_scale(t) == 0) by (nonlinear_arith)
                requires
                    r.smag() == 0,
            ;
        } else {
            lemma_floor_transfer_same(w, r, t);
        }
    }
}

/// Floor and ceiling are the identity on canonical values without
/// fractional words: both contracts then promise the value of the whole
/// part, which is the value itself.
pub proof fn lemma_whole_identity(a: FixedModel, r: FixedModel)
    requires
        a.canonical(),
        a.frac_part().is_zero_val(),
        r.canonical(),
        same_value(a.whole_part(), r),
    ensures
        r == a,
{
    let k = a.whole_split();
    let w = a.whole_part();
    crate::magnitude::lemma_mag_all_zero(a.frac_part().words);
    if a.words.len() == 0 {
        assert(w.words =~= a.words);
        assert(w =~= a);
    } else {
        // Canonical buffers have no trailing zero words, so a zero fraction
        // means the point covers the whole buffer.
        if k < a.words.len() {
            assert(a.frac_part().words.last() == a.words.last());
        }
        assert(k == a.words.len());
        assert(w.words =~= a.words);
        assert(w =~= a);
    }
    lemma_canonical_unique(a, r);
}

/// Precision round-trip: after forcing the buffer to `n` words the encoder
/// emits exactly `8 + 4 * n` bytes, whatever the value looked like before.
pub proof fn lemma_precision_encoding(m: FixedModel, n: nat)
    ensures
        m.with_precision(n).words.len() == n,
        encoding(m.with_precision(n)).len() == 8 + 4 * n,
{
    lemma_encoding_len(m.with_precision(n));
}

} // verus!
