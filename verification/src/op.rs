//! The arithmetic engine: addition and subtraction over aligned word
//! windows, with exact carry and borrow chains. Both operands are read
//! through a window wide enough for either, most significant word first;
//! the loops run least significant first and thread a carry or borrow.
use crate::fixed::{word_at, FixedDec, MAX_LEN};
use crate::magnitude::{
    lemma_mag_all_zero, lemma_mag_bound, lemma_mag_concat, lemma_mag_skip_unfold,
    lemma_mag_take_unfold, lemma_mag_zero_words, mag, zero_words, BASE,
};
use crate::model::{
    common_scale, lemma_same_value_at, lemma_same_value_zero, lemma_sums_to_from_raw, muls_to,
    same_value, shifts_to, sums_to, unit_model, FixedModel,
};
use vstd::arithmetic::div_mod::lemma_fundamental_div_mod;
use vstd::arithmetic::power2::*;
use vstd::prelude::*;

verus! {

/// The words of `m` read through a window of `n` words whose most
/// significant word sits just below point position `p`.
pub open spec fn window(m: FixedModel, p: int, n: nat) -> Seq<u32> {
    Seq::new(n, |i: int| word_at(m, i + m.point - p))
}

/// A window that covers every stored word holds the magnitude shifted up by
/// the trailing padding.
proof fn lemma_window_mag(m: FixedModel, p: int, n: nat)
    requires
        p >= m.point,
        p - n <= m.lo(),
    ensures
        mag(window(m, p, n)) == mag(m.words) * pow2(32 * (m.lo() - (p - n)) as nat),
{
    let ghi = (p - m.point) as nat;
    let glo = (m.lo() - (p - n)) as nat;
    assert(window(m, p, n) =~= zero_words(ghi) + m.words + zero_words(glo));
    lemma_mag_concat(zero_words(ghi) + m.words, zero_words(glo));
    lemma_mag_concat(zero_words(ghi), m.words);
    lemma_mag_zero_words(ghi);
    lemma_mag_zero_words(glo);
}

/// At its own finest scale a model reads as its signed magnitude.
proof fn lemma_at_own_scale(m: FixedModel)
    ensures
        m.at_scale(-32 * m.lo()) == m.smag(),
{
    lemma2_to64();
    assert(m.smag() * pow2(0) == m.smag());
}

/// The signed value of a covered window at the window's own scale.
proof fn lemma_window_value(m: FixedModel, p: int, n: nat)
    requires
        p >= m.point,
        p - n <= m.lo(),
    ensures
        m.at_scale(-32 * (p - n)) == if m.sign {
            -(mag(window(m, p, n)) as int)
        } else {
            mag(window(m, p, n)) as int
        },
{
    lemma_window_mag(m, p, n);
    let e = 32 * (m.lo() - (p - n)) as nat;
    assert((32 * m.lo() + (-32 * (p - n))) as nat == e);
    assert(m.at_scale(-32 * (p - n)) == m.smag() * pow2(e));
    if m.sign {
        assert((-(mag(m.words) as int)) * pow2(e) == -(mag(m.words) * pow2(e)))
            by (nonlinear_arith);
    }
}

/// One step of the carry chain: adding the two window words and the carry
/// in, writing the low word and carrying the high bit, preserves the sum of
/// the processed suffixes.
proof fn lemma_carry_step(
    prev: Seq<u32>,
    cur: Seq<u32>,
    aw: Seq<u32>,
    bw: Seq<u32>,
    i: int,
    w: u32,
    cin: u32,
    cout: u32,
)
    requires
        prev.len() == aw.len(),
        prev.len() == bw.len(),
        0 <= i < prev.len(),
        cur == prev.update(i, w),
        aw[i] + bw[i] + cin == w + cout * (BASE as int),
        mag(prev.skip(i + 1)) + cin * pow2((32 * (prev.len() - i - 1)) as nat) == mag(
            aw.skip(i + 1),
        ) + mag(bw.skip(i + 1)),
    ensures
        mag(cur.skip(i)) + cout * pow2((32 * (cur.len() - i)) as nat) == mag(aw.skip(i)) + mag(
            bw.skip(i),
        ),
{
    lemma_mag_skip_unfold(cur, i);
    lemma_mag_skip_unfold(aw, i);
    lemma_mag_skip_unfold(bw, i);
    assert(cur.skip(i + 1) =~= prev.skip(i + 1));
    let ghost p = pow2((32 * (prev.len() - i - 1)) as nat);
    lemma_pow2_adds((32 * (prev.len() - i - 1)) as nat, 32);
    lemma2_to64();
    assert((32 * (cur.len() - i)) as nat == (32 * (prev.len() - i - 1)) as nat + 32);
    assert(pow2((32 * (cur.len() - i)) as nat) == p * (BASE as nat));
    assert(aw[i] * p + bw[i] * p + cin * p == w * p + cout * (p * (BASE as int)))
        by (nonlinear_arith)
        requires
            aw[i] + bw[i] + cin == w + cout * (BASE as int),
    ;
}

/// One step of the borrow chain, preserving the difference of the
/// processed suffixes.
proof fn lemma_borrow_step(
    prev: Seq<u32>,
    cur: Seq<u32>,
    aw: Seq<u32>,
    bw: Seq<u32>,
    i: int,
    w: u32,
    cin: u32,
    cout: u32,
)
    requires
        prev.len() == aw.len(),
        prev.len() == bw.len(),
        0 <= i < prev.len(),
        cur == prev.update(i, w),
        aw[i] - bw[i] - cin == w - cout * (BASE as int),
        mag(aw.skip(i + 1)) - mag(bw.skip(i + 1)) == mag(prev.skip(i + 1)) - cin * pow2(
            (32 * (prev.len() - i - 1)) as nat,
        ),
    ensures
        mag(aw.skip(i)) - mag(bw.skip(i)) == mag(cur.skip(i)) - cout * pow2(
            (32 * (cur.len() - i)) as nat,
        ),
{
    lemma_mag_skip_unfold(cur, i);
    lemma_mag_skip_unfold(aw, i);
    lemma_mag_skip_unfold(bw, i);
    assert(cur.skip(i + 1) =~= prev.skip(i + 1));
    let ghost p = pow2((32 * (prev.len() - i - 1)) as nat);
    lemma_pow2_adds((32 * (prev.len() - i - 1)) as nat, 32);
    lemma2_to64();
    assert((32 * (cur.len() - i)) as nat == (32 * (prev.len() - i - 1)) as nat + 32);
    assert(pow2((32 * (cur.len() - i)) as nat) == p * (BASE as nat));
    assert(aw[i] * p - bw[i] * p - cin * p == w * p - cout * (p * (BASE as int)))
        by (nonlinear_arith)
        requires
            aw[i] - bw[i] - cin == w - cout * (BASE as int),
    ;
}

/// One step of the two's-complement correction, turning a wrapped
/// difference into the true magnitude.
proof fn lemma_flip_step(
    prev: Seq<u32>,
    cur: Seq<u32>,
    orig: Seq<u32>,
    i: int,
    w: u32,
    cin: u32,
    cout: u32,
)
    requires
        prev.len() == orig.len(),
        0 <= i < prev.len(),
        cur == prev.update(i, w),
        prev[i] == orig[i],
        (BASE as int) - 1 - orig[i] + cin == w + cout * (BASE as int),
        mag(prev.skip(i + 1)) + cin * pow2((32 * (prev.len() - i - 1)) as nat) == pow2(
            (32 * (prev.len() - i - 1)) as nat,
        ) - mag(orig.skip(i + 1)),
    ensures
        mag(cur.skip(i)) + cout * pow2((32 * (cur.len() - i)) as nat) == pow2(
            (32 * (cur.len() - i)) as nat,
        ) - mag(orig.skip(i)),
{
    lemma_mag_skip_unfold(cur, i);
    lemma_mag_skip_unfold(orig, i);
    assert(cur.skip(i + 1) =~= prev.skip(i + 1));
    let ghost p = pow2((32 * (prev.len() - i - 1)) as nat);
    lemma_pow2_adds((32 * (prev.len() - i - 1)) as nat, 32);
    lemma2_to64();
    assert((32 * (cur.len() - i)) as nat == (32 * (prev.len() - i - 1)) as nat + 32);
    assert(pow2((32 * (cur.len() - i)) as nat) == p * (BASE as nat));
    assert(w * p + cout * (p * (BASE as int)) == ((BASE as int) - 1 - orig[i] + cin) * p)
        by (nonlinear_arith)
        requires
            (BASE as int) - 1 - orig[i] + cin == w + cout * (BASE as int),
    ;
    assert(((BASE as int) - 1 - orig[i]) * p + p == (BASE as int) * p - orig[i] * p)
        by (nonlinear_arith);
    assert(((BASE as int) - 1 - orig[i] + cin) * p == ((BASE as int) - 1 - orig[i]) * p + cin * p)
        by (nonlinear_arith);
}

/// One step of a multiplication row: fold the product of the row word `x`
/// and the column word into the accumulator slot, threading a word-sized
/// carry.
proof fn lemma_mul_step(
    prev: Seq<u32>,
    cur: Seq<u32>,
    start: Seq<u32>,
    bws: Seq<u32>,
    i: int,
    j: int,
    la: int,
    x: u32,
    w: u32,
    cin: nat,
    cout: nat,
)
    requires
        prev.len() == start.len(),
        prev.len() == la + bws.len(),
        0 <= i < la,
        0 <= j < bws.len(),
        cur == prev.update(i + j + 1, w),
        prev.take(i + j + 2) == start.take(i + j + 2),
        w + cout * (BASE as int) == start[i + j + 1] + x * bws[j] + cin,
        mag(prev.skip(i + j + 2)) + cin * pow2((32 * (prev.len() - i - j - 2)) as nat) == mag(
            start.skip(i + j + 2),
        ) + x * mag(bws.skip(j + 1)) * pow2((32 * (la - 1 - i)) as nat),
    ensures
        cur.take(i + j + 1) == start.take(i + j + 1),
        mag(cur.skip(i + j + 1)) + cout * pow2((32 * (cur.len() - i - j - 1)) as nat) == mag(
            start.skip(i + j + 1),
        ) + x * mag(bws.skip(j)) * pow2((32 * (la - 1 - i)) as nat),
{
    let n = prev.len() as int;
    let k = i + j + 1;
    assert(cur.take(k) =~= start.take(k));
    lemma_mag_skip_unfold(cur, k);
    lemma_mag_skip_unfold(start, k);
    lemma_mag_skip_unfold(bws, j);
    assert(cur.skip(k + 1) =~= prev.skip(k + 1));
    assert(start[k] == prev[k]) by {
        assert(prev.take(k + 1)[k] == prev[k]);
        assert(start.take(k + 1)[k] == start[k]);
    }
    let ghost wq = pow2((32 * (n - k - 1)) as nat);
    let ghost pi = pow2((32 * (la - 1 - i)) as nat);
    let ghost qj = pow2((32 * (bws.len() - 1 - j)) as nat);
    lemma_pow2_adds((32 * (n - k - 1)) as nat, 32);
    lemma_pow2_adds((32 * (bws.len() - 1 - j)) as nat, (32 * (la - 1 - i)) as nat);
    lemma2_to64();
    assert((32 * (n - k)) as nat == (32 * (n - k - 1)) as nat + 32);
    assert(pow2((32 * (n - k)) as nat) == wq * (BASE as nat));
    assert((32 * (bws.len() - 1 - j)) as nat + (32 * (la - 1 - i)) as nat == (32 * (n - k
        - 1)) as nat);
    assert(qj * pi == wq);
    let ghost mp = mag(prev.skip(k + 1)) as int;
    let ghost ms = mag(start.skip(k + 1)) as int;
    let ghost mb1 = mag(bws.skip(j + 1)) as int;
    let ghost mbj = mag(bws.skip(j)) as int;
    assert(mbj == bws[j] * qj + mb1);
    // Multiply the word identity through by the slot weight and distribute.
    assert((w + cout * (BASE as int)) * wq == (start[k] + x * bws[j] + cin) * wq)
        by (nonlinear_arith)
        requires
            w + cout * (BASE as int) == start[k] + x * bws[j] + cin,
    ;
    assert((w + cout * (BASE as int)) * wq == w * wq + cout * (wq * (BASE as int)))
        by (nonlinear_arith);
    assert((start[k] + x * bws[j] + cin) * wq == start[k] * wq + (x * bws[j]) * wq + cin * wq)
        by (nonlinear_arith);
    assert((x * bws[j]) * wq == (x * (bws[j] * qj)) * pi) by (nonlinear_arith)
        requires
            wq == qj * pi,
    ;
    assert(x * mbj * pi == (x * (bws[j] * qj)) * pi + x * mb1 * pi) by (nonlinear_arith)
        requires
            mbj == bws[j] * qj + mb1,
    ;
    assert(w * wq + mp + cout * (wq * (BASE as int)) == start[k] * wq + ms + x * mbj * pi);
}

/// Depositing the final row carry into the row's own slot completes the
/// row: the suffix now holds the partial product of the remaining rows.
proof fn lemma_mul_row_end(
    prev: Seq<u32>,
    cur: Seq<u32>,
    start: Seq<u32>,
    aws: Seq<u32>,
    bws: Seq<u32>,
    i: int,
    la: int,
    cw: u32,
)
    requires
        prev.len() == start.len(),
        prev.len() == la + bws.len(),
        aws.len() == la,
        0 <= i < la,
        cur == prev.update(i, cw),
        prev[i] == 0,
        mag(prev.skip(i + 1)) + cw * pow2((32 * (prev.len() - i - 1)) as nat) == mag(
            start.skip(i + 1),
        ) + aws[i] * mag(bws) * pow2((32 * (la - 1 - i)) as nat),
        mag(start.skip(i + 1)) == mag(aws.skip(i + 1)) * mag(bws),
    ensures
        mag(cur.skip(i)) == mag(aws.skip(i)) * mag(bws),
{
    let n = prev.len() as int;
    lemma_mag_skip_unfold(cur, i);
    lemma_mag_skip_unfold(aws, i);
    assert(cur.skip(i + 1) =~= prev.skip(i + 1));
    let ghost wq = pow2((32 * (n - i - 1)) as nat);
    let ghost pi = pow2((32 * (la - 1 - i)) as nat);
    assert(mag(cur.skip(i)) == cw * wq + mag(prev.skip(i + 1)));
    let ghost mnext = mag(aws.skip(i + 1)) as int;
    let ghost mb = mag(bws) as int;
    assert(mag(aws.skip(i)) == aws[i] * pi + mnext);
    assert((aws[i] * pi + mnext) * mb == aws[i] * mb * pi + mnext * mb) by (nonlinear_arith);
}

/// One step of the shift chain: the current word splits into a quotient
/// that joins the carried-in bits and a remainder carried to the next word.
proof fn lemma_shr_step(mo: nat, w: nat, rem: nat, sr: nat)
    requires
        1 <= sr <= 31,
        w < BASE as nat,
        rem < BASE as nat,
        rem % pow2((32 - sr) as nat) == 0,
    ensures
        w / pow2(sr) + rem < BASE as nat,
        (w % pow2(sr)) * pow2((32 - sr) as nat) < BASE as nat,
        ((w % pow2(sr)) * pow2((32 - sr) as nat)) % pow2((32 - sr) as nat) == 0,
        ((w % pow2(sr)) * pow2((32 - sr) as nat)) / pow2((32 - sr) as nat) == w % pow2(sr),
        (mo * (BASE as nat) + (w / pow2(sr) + rem)) * pow2(sr) + (w % pow2(sr)) == (mo * pow2(sr)
            + rem / pow2((32 - sr) as nat)) * (BASE as nat) + w,
{
    let p = pow2(sr);
    let q = pow2((32 - sr) as nat);
    lemma_pow2_adds(sr, (32 - sr) as nat);
    lemma2_to64();
    assert(p * q == BASE as nat);
    lemma_pow2_pos(sr);
    lemma_pow2_pos((32 - sr) as nat);
    let rq = rem / q;
    vstd::arithmetic::div_mod::lemma_fundamental_div_mod(rem as int, q as int);
    assert(rem == rq * q);
    assert(rq < p) by (nonlinear_arith)
        requires
            rem == rq * q,
            rem < p * q,
            q > 0,
    ;
    let wq = w / p;
    let wr = w % p;
    vstd::arithmetic::div_mod::lemma_fundamental_div_mod(w as int, p as int);
    assert(w == wq * p + wr && wr < p);
    assert(wq < q) by (nonlinear_arith)
        requires
            w == wq * p + wr,
            w < p * q,
            p > 0,
            wr < p,
    ;
    assert(wq + rem < BASE as nat) by (nonlinear_arith)
        requires
            wq < q,
            rem == rq * q,
            rq < p,
            p * q == BASE as nat,
            q > 0,
    ;
    assert(wr * q < BASE as nat) by (nonlinear_arith)
        requires
            wr < p,
            p * q == BASE as nat,
            q > 0,
    ;
    vstd::arithmetic::div_mod::lemma_mod_multiples_basic(wr as int, q as int);
    vstd::arithmetic::div_mod::lemma_div_by_multiple(wr as int, q as int);
    assert((mo * (BASE as nat) + (wq + rem)) * p + wr == (mo * p + rq) * (BASE as nat) + w)
        by (nonlinear_arith)
        requires
            w == wq * p + wr,
            rem == rq * q,
            p * q == BASE as nat,
    ;
}

/// A scaled magnitude equality carries over to the signed magnitudes.
proof fn lemma_signed_scale_eq(sign: bool, big: nat, small: nat, k: nat)
    requires
        big == small * pow2(k),
    ensures
        (if sign {
            -(big as int)
        } else {
            big as int
        }) == (if sign {
            -(small as int)
        } else {
            small as int
        }) * pow2(k),
{
    if sign {
        assert((-(small as int)) * pow2(k) == -(small * pow2(k))) by (nonlinear_arith);
    }
}

/// The signed magnitude of a product carries the exclusive or of the signs.
proof fn lemma_sign_product(sa: bool, sb: bool, ka: nat, kb: nat, kr: nat)
    requires
        kr == ka * kb,
    ensures
        (if sa != sb {
            -(kr as int)
        } else {
            kr as int
        }) == (if sa {
            -(ka as int)
        } else {
            ka as int
        }) * (if sb {
            -(kb as int)
        } else {
            kb as int
        }),
{
    if sa && sb {
        assert((-(ka as int)) * (-(kb as int)) == ka * kb) by (nonlinear_arith);
    } else if sa {
        assert((-(ka as int)) * (kb as int) == -((ka * kb) as int)) by (nonlinear_arith);
    } else if sb {
        assert((ka as int) * (-(kb as int)) == -((ka * kb) as int)) by (nonlinear_arith);
    }
}

/// Machine-size limits under which a multiplication overflows no length or
/// point computation.
pub open spec fn mullable(a: FixedModel, b: FixedModel) -> bool {
    &&& a.words.len() + b.words.len() <= MAX_LEN
    &&& -0x8000_0000 <= a.point + b.point <= 0x7fff_ffff
    &&& a.lo() + b.lo() >= -0x8000_0000
}

/// Machine-size limits under which an addition overflows no length or
/// point computation; every pair of values whose windows fit in an `i32`
/// worth of words satisfies it.
pub open spec fn addable(a: FixedModel, b: FixedModel) -> bool {
    let hi = if a.point >= b.point {
        a.point
    } else {
        b.point
    };
    let lo = if a.lo() <= b.lo() {
        a.lo()
    } else {
        b.lo()
    };
    &&& a.words.len() <= MAX_LEN
    &&& b.words.len() <= MAX_LEN
    &&& -0x8000_0000 <= a.words.len() - a.point <= 0x7fff_ffff
    &&& -0x8000_0000 <= b.words.len() - b.point <= 0x7fff_ffff
    &&& hi < 0x7fff_ffff
    &&& hi - lo <= 0x7fff_fffe
}

impl FixedDec {
    /// The exact sum. Operands are aligned on their points, added with a
    /// carry or borrow chain depending on the signs, and the result is
    /// trimmed to canonical form.
    #[verifier::rlimit(100)]
    pub fn add(&self, rhs: &FixedDec) -> (r: FixedDec)
        requires
            addable(self@, rhs@),
        ensures
            r@.canonical(),
            sums_to(self@, rhs@, r@),
    {
        let ghost ma = self@;
        let ghost mb = rhs@;
        let pa = self.point();
        let pb = rhs.point();
        let hi = if pa >= pb {
            pa
        } else {
            pb
        };
        let na = self.dec_len();
        let nb = rhs.dec_len();
        let right = if na >= nb {
            na
        } else {
            nb
        };
        proof {
            assert(ma.lo() <= ma.point);
            assert(mb.lo() <= mb.point);
        }
        let len32: i32 = hi + right;
        let len: usize = len32 as usize;
        let ghost lo = hi as int - len as int;
        let ghost aw = window(ma, hi as int, len as nat);
        let ghost bw = window(mb, hi as int, len as nat);
        let off_a: i32 = pa - hi;
        let off_b: i32 = pb - hi;
        let mut out: Vec<u32> = Vec::new();
        let mut z: usize = 0;
        while z < len
            invariant
                z <= len,
                out@.len() == z,
            decreases len - z,
        {
            out.push(0u32);
            z += 1;
        }
        let neg_a = self.is_neg();
        let neg_b = rhs.is_neg();
        let mut i: usize = len;
        if neg_a == neg_b {
            // Same sign: magnitudes add; a carry past the top grows the
            // buffer by one word.
            let mut carry: u32 = 0;
            while i > 0
                invariant
                    i <= len,
                    out@.len() == len,
                    carry <= 1,
                    self@ == ma,
                    rhs@ == mb,
                    aw == window(ma, hi as int, len as nat),
                    bw == window(mb, hi as int, len as nat),
                    aw.len() == len,
                    bw.len() == len,
                    off_a == ma.point - hi,
                    off_b == mb.point - hi,
                    -(len as int) <= off_a <= 0,
                    -(len as int) <= off_b <= 0,
                    len <= 0x7fff_fffe,
                    mag(out@.skip(i as int)) + carry * pow2((32 * (len - i)) as nat) == mag(
                        aw.skip(i as int),
                    ) + mag(bw.skip(i as int)),
                decreases i,
            {
                i -= 1;
                let av = self.part(i as i32 + off_a);
                let bv = rhs.part(i as i32 + off_b);
                proof {
                    assert(av == aw[i as int]);
                    assert(bv == bw[i as int]);
                }
                let s: u64 = av as u64 + bv as u64 + carry as u64;
                let w: u32 = (s % BASE) as u32;
                let c2: u32 = (s / BASE) as u32;
                let ghost prev = out@;
                let ghost cin = carry;
                out[i] = w;
                carry = c2;
                proof {
                    lemma_fundamental_div_mod(s as int, BASE as int);
                    assert(aw[i as int] + bw[i as int] + cin == w + c2 * (BASE as int));
                    lemma_carry_step(prev, out@, aw, bw, i as int, w, cin, c2);
                }
            }
            let ghost out_pre = out@;
            proof {
                assert(out_pre.skip(0) =~= out_pre);
                assert(aw.skip(0) =~= aw);
                assert(bw.skip(0) =~= bw);
            }
            let mut dec_r = hi;
            if carry == 1 {
                out.insert(0, 1u32);
                dec_r = hi + 1;
            }
            let ghost outw = out@;
            let mut res = FixedDec::from_parts(neg_a, dec_r, out);
            let ghost r0 = res@;
            let ghost t0 = common_scale(ma, mb);
            proof {
                assert(t0 == -32 * lo);
                lemma_window_value(ma, hi as int, len as nat);
                lemma_window_value(mb, hi as int, len as nat);
                if carry == 1 {
                    assert(outw =~= seq![1u32] + out_pre);
                    lemma_mag_concat(seq![1u32], out_pre);
                    assert(seq![1u32].drop_last() =~= Seq::<u32>::empty());
                    assert(mag(Seq::<u32>::empty()) == 0);
                    assert(mag(seq![1u32]) == 1);
                    assert(mag(outw) == pow2(32 * out_pre.len()) + mag(out_pre));
                    assert(mag(outw) == mag(aw) + mag(bw));
                } else {
                    assert(mag(outw) == mag(aw) + mag(bw));
                }
                assert(r0.lo() == lo);
                lemma_at_own_scale(r0);
                assert(r0.at_scale(t0) == r0.smag());
                if neg_a {
                    assert(r0.smag() == -(mag(outw) as int));
                    assert(ma.at_scale(t0) + mb.at_scale(t0) == -(mag(aw) as int) - (mag(
                    bw) as int));
                } else {
                    assert(r0.smag() == mag(outw) as int);
                }
                assert(r0.at_scale(t0) == ma.at_scale(t0) + mb.at_scale(t0));
            }
            res.trim();
            proof {
                lemma_sums_to_from_raw(ma, mb, r0, res@, t0);
            }
            res
        } else {
            // Opposite signs: subtract through a borrow chain; a borrow
            // out means the other operand was larger, so flip the sign
            // and take the two's complement to recover the magnitude.
            let mut borrow: u32 = 0;
            while i > 0
                invariant
                    i <= len,
                    out@.len() == len,
                    borrow <= 1,
                    self@ == ma,
                    rhs@ == mb,
                    aw == window(ma, hi as int, len as nat),
                    bw == window(mb, hi as int, len as nat),
                    aw.len() == len,
                    bw.len() == len,
                    off_a == ma.point - hi,
                    off_b == mb.point - hi,
                    -(len as int) <= off_a <= 0,
                    -(len as int) <= off_b <= 0,
                    len <= 0x7fff_fffe,
                    mag(aw.skip(i as int)) - mag(bw.skip(i as int)) == mag(out@.skip(i as int))
                        - borrow * pow2((32 * (len - i)) as nat),
                decreases i,
            {
                i -= 1;
                let av = self.part(i as i32 + off_a);
                let bv = rhs.part(i as i32 + off_b);
                proof {
                    assert(av == aw[i as int]);
                    assert(bv == bw[i as int]);
                }
                let d: u64 = av as u64 + BASE - bv as u64 - borrow as u64;
                let w: u32 = (d % BASE) as u32;
                let c2: u32 = if d < BASE {
                    1
                } else {
                    0
                };
                let ghost prev = out@;
                let ghost cin = borrow;
                out[i] = w;
                borrow = c2;
                proof {
                    lemma_fundamental_div_mod(d as int, BASE as int);
                    assert(d / BASE == 1 - c2) by {
                        assert(d < 2 * BASE);
                        assert(d >= BASE ==> d / BASE == 1 && d < BASE ==> d / BASE == 0);
                    }
                    assert(aw[i as int] - bw[i as int] - cin == w - c2 * (BASE as int));
                    lemma_borrow_step(prev, out@, aw, bw, i as int, w, cin, c2);
                }
            }
            let ghost sub_out = out@;
            let mut sign_r = neg_a;
            if borrow == 1 {
                // Two's-complement correction: the true magnitude is
                // 2^(32*len) minus the wrapped difference.
                sign_r = !neg_a;
                let mut c: u32 = 1;
                let mut k: usize = len;
                while k > 0
                    invariant
                        k <= len,
                        out@.len() == len,
                        c <= 1,
                        sub_out.len() == len,
                        out@.take(k as int) == sub_out.take(k as int),
                        mag(out@.skip(k as int)) + c * pow2((32 * (len - k)) as nat) == pow2(
                            (32 * (len - k)) as nat,
                        ) - mag(sub_out.skip(k as int)),
                    decreases k,
                {
                    k -= 1;
                    let ghost prev = out@;
                    let ghost cin = c;
                    proof {
                        assert(prev.take(k as int + 1) == sub_out.take(k as int + 1));
                        assert(prev.take(k as int + 1)[k as int] == prev[k as int]);
                        assert(prev[k as int] == sub_out[k as int]);
                    }
                    let ov = out[k];
                    let t: u64 = (0xffff_ffffu32 - ov) as u64 + c as u64;
                    let w: u32 = (t % BASE) as u32;
                    let c2: u32 = (t / BASE) as u32;
                    out[k] = w;
                    c = c2;
                    proof {
                        lemma_fundamental_div_mod(t as int, BASE as int);
                        assert((BASE as int) - 1 - sub_out[k as int] + cin == w + c2 * (
                        BASE as int));
                        assert(out@.take(k as int) =~= sub_out.take(k as int));
                        lemma_flip_step(prev, out@, sub_out, k as int, w, cin, c2);
                    }
                }
                proof {
                    // The wrapped difference cannot be zero when a borrow
                    // came out, so the final carry is absorbed.
                    assert(out@.skip(0) =~= out@);
                    assert(sub_out.skip(0) =~= sub_out);
                    assert(aw.skip(0) =~= aw);
                    assert(bw.skip(0) =~= bw);
                    lemma_mag_bound(bw);
                    lemma_pow2_pos((32 * (len as nat)) as nat);
                    assert(mag(sub_out) > 0);
                    assert(c == 0);
                    assert(mag(out@) == pow2(32 * (len as nat)) - mag(sub_out));
                    assert(mag(out@) == mag(bw) - mag(aw));
                }
            }
            let ghost outw = out@;
            let mut res = FixedDec::from_parts(sign_r, hi, out);
            let ghost r0 = res@;
            let ghost t0 = common_scale(ma, mb);
            proof {
                assert(aw.skip(0) =~= aw);
                assert(bw.skip(0) =~= bw);
                assert(outw.skip(0) =~= outw);
                assert(sub_out.skip(0) =~= sub_out);
                assert(t0 == -32 * lo);
                lemma_window_value(ma, hi as int, len as nat);
                lemma_window_value(mb, hi as int, len as nat);
                assert(r0.lo() == lo);
                lemma_at_own_scale(r0);
                if borrow == 1 {
                    assert(mag(outw) == mag(bw) - mag(aw));
                } else {
                    assert(mag(outw) == mag(aw) - mag(bw));
                }
                assert(r0.at_scale(t0) == ma.at_scale(t0) + mb.at_scale(t0));
            }
            res.trim();
            proof {
                lemma_sums_to_from_raw(ma, mb, r0, res@, t0);
            }
            res
        }
    }

    /// The exact product. Schoolbook long multiplication: the magnitude
    /// buffer is the full double width, the point is the sum of the points,
    /// the sign is the exclusive or of the signs; the result is trimmed.
    #[verifier::rlimit(100)]
    pub fn mul(&self, rhs: &FixedDec) -> (r: FixedDec)
        requires
            mullable(self@, rhs@),
        ensures
            r@.canonical(),
            muls_to(self@, rhs@, r@),
            r@.is_zero_val() || r@.lo() >= self@.lo() + rhs@.lo(),
    {
        let ghost ma = self@;
        let ghost mb = rhs@;
        let la = self.parts().len();
        let lb = rhs.parts().len();
        let n = la + lb;
        let mut out: Vec<u32> = Vec::new();
        let mut z: usize = 0;
        while z < n
            invariant
                z <= n,
                out@.len() == z,
                forall|k: int| 0 <= k < z ==> out@[k] == 0,
            decreases n - z,
        {
            out.push(0u32);
            z += 1;
        }
        proof {
            assert(out@.skip(la as int).len() == lb);
            lemma_mag_all_zero(out@.skip(la as int));
            assert(ma.words.skip(la as int) =~= Seq::<u32>::empty());
            assert(mag(Seq::<u32>::empty()) == 0);
        }
        let mut i: usize = la;
        while i > 0
            invariant
                i <= la,
                out@.len() == n,
                n == la + lb,
                la == ma.words.len(),
                lb == mb.words.len(),
                n <= MAX_LEN,
                self@ == ma,
                rhs@ == mb,
                forall|k: int| 0 <= k < i ==> out@[k] == 0,
                mag(out@.skip(i as int)) == mag(ma.words.skip(i as int)) * mag(mb.words),
            decreases i,
        {
            i -= 1;
            let x = self.part(i as i32);
            proof {
                assert(x == ma.words[i as int]);
            }
            let ghost row_start = out@;
            let mut carry: u64 = 0;
            let mut j: usize = lb;
            proof {
                assert(out@.take((i + j + 1) as int) =~= row_start.take((i + j + 1) as int));
                assert(mb.words.skip(j as int) =~= Seq::<u32>::empty());
                assert(mag(Seq::<u32>::empty()) == 0);
                assert(x * mag(mb.words.skip(j as int)) * pow2((32 * (la - 1 - i)) as nat) == 0)
                    by (nonlinear_arith)
                    requires
                        mag(mb.words.skip(j as int)) == 0,
                ;
            }
            while j > 0
                invariant
                    j <= lb,
                    out@.len() == n,
                    n == la + lb,
                    la == ma.words.len(),
                    lb == mb.words.len(),
                    n <= MAX_LEN,
                    self@ == ma,
                    rhs@ == mb,
                    i < la,
                    x == ma.words[i as int],
                    carry < BASE,
                    row_start.len() == n,
                    out@.take((i + j + 1) as int) == row_start.take((i + j + 1) as int),
                    mag(out@.skip((i + j + 1) as int)) + carry * pow2((32 * (n - i - j - 1)) as nat)
                        == mag(row_start.skip((i + j + 1) as int)) + x * mag(
                        mb.words.skip(j as int),
                    ) * pow2((32 * (la - 1 - i)) as nat),
                decreases j,
            {
                j -= 1;
                let y = rhs.part(j as i32);
                proof {
                    assert(y == mb.words[j as int]);
                }
                let k = i + j + 1;
                proof {
                    assert(out@[k as int] == row_start[k as int]) by {
                        assert(out@.take((k + 1) as int)[k as int] == out@[k as int]);
                    }
                    assert((x as int) * (y as int) <= 0xffff_ffffu64 * 0xffff_ffffu64)
                        by (nonlinear_arith)
                        requires
                            x <= 0xffff_ffffu64,
                            y <= 0xffff_ffffu64,
                    ;
                }
                let total: u64 = out[k] as u64 + (x as u64) * (y as u64) + carry;
                let w: u32 = (total % BASE) as u32;
                let ghost prev = out@;
                let ghost cin = carry;
                out[k] = w;
                carry = total / BASE;
                proof {
                    lemma_fundamental_div_mod(total as int, BASE as int);
                    assert(carry < BASE) by (nonlinear_arith)
                        requires
                            total < (BASE as int) * (BASE as int),
                            carry == total as int / BASE as int,
                            BASE > 0,
                    ;
                    assert(w + carry * (BASE as int) == row_start[k as int] + x * (y as int)
                        + cin);
                    lemma_mul_step(
                        prev,
                        out@,
                        row_start,
                        mb.words,
                        i as int,
                        j as int,
                        la as int,
                        x,
                        w,
                        cin as nat,
                        carry as nat,
                    );
                }
            }
            let ghost prev = out@;
            let cw: u32 = carry as u32;
            out[i] = cw;
            proof {
                assert(prev[i as int] == row_start[i as int]) by {
                    assert(prev.take((i + 1) as int)[i as int] == prev[i as int]);
                }
                assert(row_start[i as int] == 0);
                assert(mb.words.skip(0) =~= mb.words);
                lemma_mul_row_end(
                    prev,
                    out@,
                    row_start,
                    ma.words,
                    mb.words,
                    i as int,
                    la as int,
                    cw,
                );
                assert forall|k: int| 0 <= k < i implies out@[k] == 0 by {
                    assert(prev.take((i + 1) as int)[k] == prev[k]);
                    assert(row_start.take((i + 1) as int)[k] == row_start[k]);
                    assert(row_start[k] == 0);
                }
            }
        }
        proof {
            assert(out@.skip(0) =~= out@);
            assert(ma.words.skip(0) =~= ma.words);
        }
        let sign = self.is_neg() != rhs.is_neg();
        let dec_r = self.point() + rhs.point();
        let mut res = FixedDec::from_parts(sign, dec_r, out);
        let ghost r0 = res@;
        let ghost t = -32 * (ma.lo() + mb.lo());
        proof {
            assert(r0.lo() == ma.lo() + mb.lo());
            lemma_at_own_scale(r0);
            lemma_sign_product(
                ma.sign,
                mb.sign,
                mag(ma.words),
                mag(mb.words),
                mag(r0.words),
            );
            assert(r0.smag() == ma.smag() * mb.smag());
            assert(r0.at_scale(t) == ma.smag() * mb.smag());
        }
        res.trim();
        proof {
            if res@.is_zero_val() {
                lemma_same_value_zero(r0, res@);
                assert(r0.smag() == 0);
                assert(res@.at_scale(t) == 0) by (nonlinear_arith)
                    requires
                        res@.smag() == 0,
                ;
                assert(r0.at_scale(t) == 0) by (nonlinear_arith)
                    requires
                        r0.smag() == 0,
                ;
            } else {
                assert(res@.lo() >= ma.lo() + mb.lo());
                assert(res@.scale_ok(t));
                lemma_same_value_at(r0, res@, t);
            }
        }
        res
    }

    /// Shift right by `rhs` bits: the value divided by `2^rhs` exactly, with
    /// a trailing word appended when shifted-out bits remain. A negative
    /// count shifts left. The buffer shape is kept; the result is not
    /// trimmed.
    #[verifier::rlimit(100)]
    pub fn shr(&self, rhs: i32) -> (r: FixedDec)
        requires
            self@.words.len() < MAX_LEN,
            -0x8000_0000 <= self@.point - ((rhs as int) / 32) <= 0x7fff_ffff,
        ensures
            shifts_to(self@, rhs as int, r@),
            r@.sign == self@.sign,
            r@.point == self@.point - (rhs as int) / 32,
            r@.words.len() == self@.words.len() || r@.words.len() == self@.words.len() + 1,
            (rhs as int) % 32 == 0 ==> r@.words.len() == self@.words.len(),
    {
        let ghost ma = self@;
        let ghost n = rhs as int;
        let n64: i64 = rhs as i64;
        let ws64: i64 = if n64 >= 0 {
            n64 / 32
        } else {
            -((-n64 + 31) / 32)
        };
        proof {
            if n64 < 0 {
                let q = (-n64 + 31) / 32;
                let rr = (-n64 + 31) % 32;
                vstd::arithmetic::div_mod::lemma_fundamental_div_mod(-n64 as int, 32);
                vstd::arithmetic::div_mod::lemma_fundamental_div_mod_converse(
                    n as int,
                    32,
                    -q,
                    31 - rr,
                );
            }
            assert(ws64 as int == n / 32);
        }
        let sr64: i64 = n64 - 32 * ws64;
        proof {
            vstd::arithmetic::div_mod::lemma_fundamental_div_mod(n, 32);
            assert(0 <= sr64 < 32);
            assert(sr64 as int == n % 32);
        }
        let sr: u32 = sr64 as u32;
        let dec2: i32 = (self.point() as i64 - ws64) as i32;
        let len = self.parts().len();
        let sign = self.is_neg();
        let mut out: Vec<u32> = Vec::new();
        if sr == 0 {
            let mut i: usize = 0;
            while i < len
                invariant
                    i <= len,
                    len == ma.words.len(),
                    len < MAX_LEN,
                    self@ == ma,
                    out@ =~= ma.words.take(i as int),
                decreases len - i,
            {
                out.push(self.part(i as i32));
                i += 1;
            }
            proof {
                assert(out@ =~= ma.words);
            }
            let r = FixedDec::from_parts(sign, dec2, out);
            proof {
                assert(r@.lo() == ma.lo() - n / 32);
                lemma_at_own_scale(r@);
                let t = -32 * r@.lo();
                assert(32 * ma.lo() + (t - n) == 0);
                lemma2_to64();
                assert(ma.at_scale(t - n) == ma.smag() * pow2(0));
                assert(r@.smag() == ma.smag());
            }
            r
        } else {
            let msr: u32 = 1u32 << sr;
            let plo: u32 = 1u32 << (32u32 - sr);
            proof {
                lemma2_to64();
                assert(pow2(sr as nat) <= pow2(31)) by {
                    if (sr as nat) < 31 {
                        lemma_pow2_strictly_increases(sr as nat, 31);
                    }
                }
                assert(pow2((32 - sr) as nat) <= pow2(31)) by {
                    if ((32 - sr) as nat) < 31 {
                        lemma_pow2_strictly_increases((32 - sr) as nat, 31);
                    }
                }
                vstd::bits::lemma_u32_shl_is_mul(1u32, sr);
                vstd::bits::lemma_u32_shl_is_mul(1u32, (32 - sr) as u32);
                lemma_pow2_adds(sr as nat, (32 - sr) as nat);
            }
            let mut rem: u32 = 0;
            let mut i: usize = 0;
            proof {
                assert(ma.words.take(0) =~= Seq::<u32>::empty());
                assert(mag(Seq::<u32>::empty()) == 0);
                assert(out@ =~= Seq::<u32>::empty());
                lemma_pow2_pos((32 - sr) as nat);
            }
            while i < len
                invariant
                    i <= len,
                    out@.len() == i,
                    len == ma.words.len(),
                    len < MAX_LEN,
                    self@ == ma,
                    1 <= sr <= 31,
                    msr == pow2(sr as nat),
                    plo == pow2((32 - sr) as nat),
                    msr * plo == BASE,
                    rem as nat % pow2((32 - sr) as nat) == 0,
                    mag(out@) * pow2(sr as nat) + rem as nat / pow2((32 - sr) as nat) == mag(
                        ma.words.take(i as int),
                    ),
                decreases len - i,
            {
                let w = self.part(i as i32);
                proof {
                    assert(w == ma.words[i as int]);
                    lemma_shr_step(mag(out@), w as nat, rem as nat, sr as nat);
                    lemma_mag_take_unfold(ma.words, i as int);
                }
                let q = w / msr;
                let ghost out_old = out@;
                let ghost rem_old = rem;
                out.push(q + rem);
                let wr = w % msr;
                proof {
                    assert((wr as nat) * (plo as nat) < BASE as nat);
                }
                rem = ((wr as u64) * (plo as u64)) as u32;
                proof {
                    assert(out@.drop_last() =~= out_old);
                    assert(out@.last() == q + rem_old);
                    assert(mag(out@) == mag(out_old) * (BASE as nat) + (q + rem_old) as nat);
                    assert(rem as nat == (w as nat % pow2(sr as nat)) * pow2((32 - sr) as nat));
                }
                i += 1;
            }
            proof {
                assert(ma.words.take(len as int) =~= ma.words);
            }
            let ghost main = out@;
            if rem != 0 {
                out.push(rem);
            }
            let r = FixedDec::from_parts(sign, dec2, out);
            proof {
                lemma_at_own_scale(r@);
                if rem != 0 {
                    assert(r@.words.drop_last() =~= main);
                    assert(mag(r@.words) == mag(main) * (BASE as nat) + rem as nat);
                    assert(r@.lo() == ma.lo() - n / 32 - 1);
                    let t = -32 * r@.lo();
                    assert(-32 * r@.lo() >= -32 * ma.lo() + n);
                    assert(32 * ma.lo() + (t - n) == 32 - sr);
                    // mag(r) == mag(a) * 2^(32 - sr)
                    let rq = rem as nat / pow2((32 - sr) as nat);
                    lemma_pow2_pos((32 - sr) as nat);
                    assert(rem as nat % pow2((32 - sr) as nat) == 0);
                    vstd::arithmetic::div_mod::lemma_fundamental_div_mod(
                        rem as int,
                        pow2((32 - sr) as nat) as int,
                    );
                    assert(rem as int == pow2((32 - sr) as nat) * rq + 0);
                    assert(pow2((32 - sr) as nat) * rq == rq * pow2((32 - sr) as nat))
                        by (nonlinear_arith);
                    assert(rem as nat == rq * pow2((32 - sr) as nat));
                    assert((mag(main) * pow2(sr as nat) + rq) * pow2((32 - sr) as nat) == mag(
                        ma.words,
                    ) * pow2((32 - sr) as nat)) by (nonlinear_arith)
                        requires
                            mag(main) * pow2(sr as nat) + rq == mag(ma.words),
                    ;
                    assert((mag(main) * pow2(sr as nat) + rq) * pow2((32 - sr) as nat) == mag(
                        main,
                    ) * (pow2(sr as nat) * pow2((32 - sr) as nat)) + rq * pow2((32 - sr) as nat))
                        by (nonlinear_arith);
                    assert(mag(r@.words) == mag(ma.words) * pow2((32 - sr) as nat));
                    lemma_signed_scale_eq(r@.sign, mag(r@.words), mag(ma.words), (32 - sr) as nat);
                    assert(r@.at_scale(t) == ma.at_scale(t - n));
                } else {
                    assert(r@.lo() == ma.lo() - n / 32);
                    let t = -32 * ma.lo() + n;
                    assert(-32 * r@.lo() < t);
                    assert(32 * r@.lo() + t == sr);
                    lemma_at_own_scale(ma);
                    assert(rem as nat / pow2((32 - sr) as nat) == 0);
                    assert(mag(r@.words) * pow2(sr as nat) == mag(ma.words));
                    lemma_signed_scale_eq(r@.sign, mag(ma.words), mag(r@.words), sr as nat);
                    assert(r@.at_scale(t) == ma.at_scale(t - n));
                }
            }
            r
        }
    }

    /// Shift left by `rhs` bits: the value multiplied by `2^rhs`.
    pub fn shl(&self, rhs: i32) -> (r: FixedDec)
        requires
            self@.words.len() < MAX_LEN,
            rhs > -0x8000_0000,
            -0x8000_0000 <= self@.point - ((-rhs as int) / 32) <= 0x7fff_ffff,
        ensures
            shifts_to(self@, -(rhs as int), r@),
            r@.sign == self@.sign,
            r@.point == self@.point - (-(rhs as int)) / 32,
            r@.words.len() == self@.words.len() || r@.words.len() == self@.words.len() + 1,
            (-(rhs as int)) % 32 == 0 ==> r@.words.len() == self@.words.len(),
    {
        self.shr(-rhs)
    }

    /// In-place product.
    pub fn mul_assign(&mut self, rhs: &FixedDec)
        requires
            mullable(old(self)@, rhs@),
        ensures
            final(self)@.canonical(),
            muls_to(old(self)@, rhs@, final(self)@),
            final(self)@.is_zero_val() || final(self)@.lo() >= old(self)@.lo() + rhs@.lo(),
    {
        let r = self.mul(rhs);
        *self = r;
    }

    /// In-place sum.
    pub fn add_assign(&mut self, rhs: &FixedDec)
        requires
            addable(old(self)@, rhs@),
        ensures
            final(self)@.canonical(),
            sums_to(old(self)@, rhs@, final(self)@),
    {
        let r = self.add(rhs);
        *self = r;
    }

    /// The exact difference: the sum with the negated right-hand side.
    pub fn sub(&self, rhs: &FixedDec) -> (r: FixedDec)
        requires
            addable(self@, rhs@),
        ensures
            r@.canonical(),
            sums_to(self@, rhs@.negated(), r@),
    {
        let n = rhs.neg();
        proof {
            assert(addable(self@, n@));
        }
        self.add(&n)
    }

    /// In-place difference.
    pub fn sub_assign(&mut self, rhs: &FixedDec)
        requires
            addable(old(self)@, rhs@),
        ensures
            final(self)@.canonical(),
            sums_to(old(self)@, rhs@.negated(), final(self)@),
    {
        let r = self.sub(rhs);
        *self = r;
    }

    /// Rounds toward negative infinity: the fractional words are dropped,
    /// and a negative value with a nonzero fractional part steps one whole
    /// unit down.
    pub fn floor(self) -> (r: Self)
        requires
            self@.words.len() <= 0x2000_0000,
            -0x2000_0000 <= self@.point <= 0x2000_0000,
        ensures
            r@.canonical(),
            (self@.sign && !self@.frac_part().is_zero_val()) ==> sums_to(
                self@.whole_part(),
                unit_model().negated(),
                r@,
            ),
            !(self@.sign && !self@.frac_part().is_zero_val()) ==> same_value(
                self@.whole_part(),
                r@,
            ),
    {
        let ghost ma = self@;
        let (mut whole, frac) = self.split_whole_dec();
        let corr = self.is_neg() && !frac.is_zero();
        if corr {
            let one = FixedDec::one();
            proof {
                assert(one@ =~= unit_model());
                assert(addable(whole@, one@));
            }
            whole.sub(&one)
        } else {
            whole.trim();
            whole
        }
    }

    /// Rounds toward positive infinity: the fractional words are dropped
    /// (which already rounds a negative value up), and a non-negative value
    /// that lost a nonzero fraction steps one whole unit up. Values without
    /// fractional words are fixed points.
    pub fn ceil(self) -> (r: Self)
        requires
            self@.words.len() <= 0x2000_0000,
            -0x2000_0000 <= self@.point <= 0x2000_0000,
        ensures
            r@.canonical(),
            (!self@.sign && !self@.frac_part().is_zero_val()) ==> sums_to(
                self@.whole_part(),
                unit_model(),
                r@,
            ),
            !(!self@.sign && !self@.frac_part().is_zero_val()) ==> same_value(
                self@.whole_part(),
                r@,
            ),
    {
        let ghost ma = self@;
        let (mut whole, frac) = self.split_whole_dec();
        if !self.is_neg() && !frac.is_zero() {
            let one = FixedDec::one();
            proof {
                assert(one@ =~= unit_model());
                assert(addable(whole@, one@));
            }
            whole.add(&one)
        } else {
            whole.trim();
            whole
        }
    }
}

} // verus!
