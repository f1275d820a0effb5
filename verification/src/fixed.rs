//! The fixed-point number itself: a sign flag, a word-granularity binary
//! point, and a buffer of 32-bit words, most significant first. Words before
//! `dec` are the whole part, the rest the fractional part; the buffer is
//! conceptually zero-padded without bound on both sides.
use crate::magnitude::{lemma_mag_all_zero, lemma_mag_split, mag};
use crate::model::{common_scale, lemma_same_at_common, lemma_scale_shift, same_value, FixedModel};
use vstd::arithmetic::power2::*;
use vstd::prelude::*;

verus! {

/// Largest buffer length the operations accept; keeps every length and
/// point computation inside `i32`.
pub const MAX_LEN: usize = 0x7fff_ffff;

/// Word of `m` at buffer index `i`, with implicit zero padding outside the
/// stored range.
pub open spec fn word_at(m: FixedModel, i: int) -> u32 {
    if 0 <= i < m.words.len() {
        m.words[i]
    } else {
        0
    }
}

pub struct FixedDec {
    sign: bool,
    dec: i32,
    parts: Vec<u32>,
}

impl View for FixedDec {
    type V = FixedModel;

    closed spec fn view(&self) -> FixedModel {
        FixedModel { sign: self.sign, point: self.dec as int, words: self.parts@ }
    }
}

impl FixedDec {
    /// The canonical zero: empty buffer, point at zero, positive sign.
    pub fn zeros() -> (r: Self)
        ensures
            !r@.sign,
            r@.point == 0,
            r@.words =~= Seq::<u32>::empty(),
            r@.canonical(),
    {
        FixedDec { sign: false, dec: 0, parts: Vec::new() }
    }

    /// The value one: a single whole word.
    pub fn one() -> (r: Self)
        ensures
            !r@.sign,
            r@.point == 1,
            r@.words =~= seq![1u32],
            r@.canonical(),
    {
        let mut parts: Vec<u32> = Vec::new();
        parts.push(1);
        let r = FixedDec { sign: false, dec: 1, parts };
        proof {
            assert(r@.words =~= seq![1u32]);
        }
        r
    }

    /// Builds a value directly from its representation.
    pub fn from_parts(sign: bool, dec: i32, parts: Vec<u32>) -> (r: Self)
        ensures
            r@.sign == sign,
            r@.point == dec as int,
            r@.words == parts@,
    {
        FixedDec { sign, dec, parts }
    }

    /// Number of fractional words (negative when the buffer ends before the
    /// point).
    pub fn dec_len(&self) -> (r: i32)
        requires
            self@.words.len() <= MAX_LEN,
            -0x8000_0000 <= self@.words.len() - self@.point <= 0x7fff_ffff,
        ensures
            r as int == self@.words.len() - self@.point,
    {
        self.parts.len() as i32 - self.dec
    }

    /// Word at buffer index `i`, zero outside the stored range.
    pub fn part(&self, i: i32) -> (r: u32)
        ensures
            r == word_at(self@, i as int),
    {
        if i < 0 {
            return 0;
        }
        let u = i as usize;
        if u < self.parts.len() {
            self.parts[u]
        } else {
            0
        }
    }

    /// Position of the binary point, in whole words from the buffer start.
    pub(crate) fn point(&self) -> (r: i32)
        ensures
            r as int == self@.point,
    {
        self.dec
    }

    pub fn is_pos(&self) -> (r: bool)
        ensures
            r == !self@.sign,
    {
        !self.sign
    }

    pub fn is_neg(&self) -> (r: bool)
        ensures
            r == self@.sign,
    {
        self.sign
    }

    /// True when every stored word is zero, i.e. the value is zero.
    pub fn is_zero(&self) -> (r: bool)
        ensures
            r == self@.is_zero_val(),
    {
        let mut i: usize = 0;
        while i < self.parts.len()
            invariant
                0 <= i <= self@.words.len(),
                forall|k: int| 0 <= k < i ==> self@.words[k] == 0,
            decreases self@.words.len() - i,
        {
            if self.parts[i] != 0 {
                proof {
                    lemma_mag_all_zero(self@.words);
                }
                return false;
            }
            i += 1;
        }
        proof {
            lemma_mag_all_zero(self@.words);
        }
        true
    }

    /// Read access to the stored words.
    pub fn parts(&self) -> (r: &Vec<u32>)
        ensures
            r@ == self@.words,
    {
        &self.parts
    }

    /// Flips the sign unless the value is zero, which stays positive.
    pub fn negate(&mut self)
        ensures
            final(self)@.words == old(self)@.words,
            final(self)@.point == old(self)@.point,
            final(self)@.sign == if old(self)@.is_zero_val() {
                old(self)@.sign
            } else {
                !old(self)@.sign
            },
    {
        if !self.is_zero() {
            self.sign = !self.sign;
        }
    }

    /// The value with the sign flipped, zero included (a negative zero
    /// denotes the same value as zero).
    pub fn neg(&self) -> (r: Self)
        ensures
            r@ == self@.negated(),
    {
        let mut parts: Vec<u32> = Vec::new();
        let mut k: usize = 0;
        while k < self.parts.len()
            invariant
                0 <= k <= self@.words.len(),
                parts@ =~= self@.words.take(k as int),
            decreases self@.words.len() - k,
        {
            parts.push(self.parts[k]);
            k += 1;
        }
        let r = FixedDec { sign: !self.sign, dec: self.dec, parts };
        proof {
            assert(r@.words =~= self@.words);
            assert(r@ =~= self@.negated());
        }
        r
    }

    /// Forces the whole-word count to `len`, inserting or removing leading
    /// zero words; an emptied buffer collapses to point zero.
    pub fn set_whole_len(&mut self, len: i32)
        requires
            old(self)@.words.len() <= MAX_LEN,
            -0x8000_0000 <= len - old(self)@.point <= 0x7fff_ffff,
        ensures
            final(self)@ == old(self)@.with_whole(len as int),
    {
        let ghost m0 = self@;
        let d: i32 = len - self.dec;
        let n = self.parts.len();
        let mut out: Vec<u32> = Vec::new();
        let start: usize = if d >= 0 {
            let du = d as usize;
            let mut z: usize = 0;
            while z < du
                invariant
                    z <= du,
                    out@ =~= crate::magnitude::zero_words(z as nat),
                decreases du - z,
            {
                out.push(0u32);
                z += 1;
            }
            0
        } else {
            let nd64: i64 = -(d as i64);
            if nd64 >= n as i64 {
                n
            } else {
                nd64 as usize
            }
        };
        let mut i: usize = start;
        while i < n
            invariant
                start <= i <= n,
                n == m0.words.len(),
                self@ == m0,
                out@.len() == (if d >= 0 {
                    d as int
                } else {
                    0
                }) + i - start,
                d >= 0 ==> out@ =~= crate::magnitude::zero_words(d as nat) + m0.words.take(i as int),
                d < 0 ==> out@ =~= m0.words.subrange(start as int, i as int),
            decreases n - i,
        {
            out.push(self.parts[i]);
            i += 1;
        }
        if out.len() == 0 {
            self.dec = 0;
        } else {
            self.dec = len;
        }
        self.parts = out;
        proof {
            assert(m0.words.take(n as int) =~= m0.words);
            if d >= 0 {
                assert(self@.words =~= m0.with_whole(len as int).words);
            } else {
                assert(self@.words =~= m0.with_whole(len as int).words);
            }
            assert(self@ =~= m0.with_whole(len as int));
        }
    }

    /// `set_whole_len` on an owned value.
    pub fn with_whole_len(self, len: i32) -> (r: Self)
        requires
            self@.words.len() <= MAX_LEN,
            -0x8000_0000 <= len - self@.point <= 0x7fff_ffff,
        ensures
            r@ == self@.with_whole(len as int),
    {
        let mut s = self;
        s.set_whole_len(len);
        s
    }

    /// Forces the fractional-word count to `len` by zero-extension or
    /// truncation on the right; an emptied buffer collapses to point zero.
    pub fn set_dec_len(&mut self, len: i32)
        requires
            old(self)@.words.len() <= MAX_LEN,
            -0x8000_0000 <= len + old(self)@.point <= 0x7fff_ffff,
        ensures
            final(self)@ == old(self)@.with_dec(len as int),
    {
        let ghost m0 = self@;
        let t64: i64 = len as i64 + self.dec as i64;
        let n = self.parts.len();
        let m: usize = if t64 <= 0 {
            0
        } else {
            t64 as usize
        };
        self.resize_words(m);
        proof {
            assert(self@ =~= m0.with_dec(len as int));
        }
    }

    /// `set_dec_len` on an owned value.
    pub fn with_dec_len(self, len: i32) -> (r: Self)
        requires
            self@.words.len() <= MAX_LEN,
            -0x8000_0000 <= len + self@.point <= 0x7fff_ffff,
        ensures
            r@ == self@.with_dec(len as int),
    {
        let mut s = self;
        s.set_dec_len(len);
        s
    }

    /// Forces both word counts at once: the whole count first, then the
    /// fractional count of the reshaped value.
    pub fn with_lens(self, whole_len: i32, dec_len: i32) -> (r: Self)
        requires
            self@.words.len() <= MAX_LEN,
            -0x8000_0000 <= whole_len - self@.point <= 0x7fff_ffff,
            self@.with_whole(whole_len as int).words.len() <= MAX_LEN,
            -0x8000_0000 <= dec_len + self@.with_whole(whole_len as int).point <= 0x7fff_ffff,
        ensures
            r@ == self@.with_whole(whole_len as int).with_dec(dec_len as int),
    {
        self.with_whole_len(whole_len).with_dec_len(dec_len)
    }

    /// Blunt resize to exactly `prec` words, whatever the point; an emptied
    /// buffer collapses to point zero. Callers use this to fix the encoded
    /// width just before serialization.
    pub fn set_precision(&mut self, prec: usize)
        ensures
            final(self)@ == old(self)@.with_precision(prec as nat),
            final(self)@.words.len() == prec,
    {
        let ghost m0 = self@;
        self.resize_words(prec);
        proof {
            assert(self@ =~= m0.with_precision(prec as nat));
        }
    }

    /// Resizes the buffer to `m` words, truncating or zero-padding on the
    /// right, and collapses the point when the buffer empties.
    fn resize_words(&mut self, m: usize)
        ensures
            final(self)@.sign == old(self)@.sign,
            final(self)@.point == if m == 0 {
                0int
            } else {
                old(self)@.point
            },
            final(self)@.words =~= (if m <= old(self)@.words.len() {
                old(self)@.words.take(m as int)
            } else {
                old(self)@.words + crate::magnitude::zero_words((m - old(self)@.words.len()) as nat)
            }),
    {
        let ghost m0 = self@;
        let n = self.parts.len();
        let mut out: Vec<u32> = Vec::new();
        let keep = if m < n {
            m
        } else {
            n
        };
        let mut i: usize = 0;
        while i < keep
            invariant
                i <= keep <= n,
                n == m0.words.len(),
                self@ == m0,
                out@ =~= m0.words.take(i as int),
            decreases keep - i,
        {
            out.push(self.parts[i]);
            i += 1;
        }
        while out.len() < m
            invariant
                self@ == m0,
                n == m0.words.len(),
                keep <= out@.len() <= m,
                out@ =~= m0.words.take(keep as int) + crate::magnitude::zero_words(
                    (out@.len() - keep) as nat,
                ),
            decreases m - out@.len(),
        {
            out.push(0u32);
        }
        if m == 0 {
            self.dec = 0;
        }
        self.parts = out;
        proof {
            if m <= n {
                assert(self@.words =~= m0.words.take(m as int));
            } else {
                assert(m0.words.take(keep as int) =~= m0.words);
                assert(self@.words =~= m0.words + crate::magnitude::zero_words((m - n) as nat));
            }
        }
    }

    /// Splits into the whole-word part and the fractional part; both carry
    /// the sign, the whole part keeps the point, the fractional part gets a
    /// non-positive one.
    pub fn split_whole_dec(&self) -> (r: (FixedDec, FixedDec))
        ensures
            r.0@ == self@.whole_part(),
            r.1@ == self@.frac_part(),
    {
        let ghost m0 = self@;
        let n = self.parts.len();
        let k: usize = if self.dec < 0 {
            0
        } else {
            let du = self.dec as usize;
            if du > n {
                n
            } else {
                du
            }
        };
        proof {
            assert(k as int == m0.whole_split());
        }
        let mut wh: Vec<u32> = Vec::new();
        let mut i: usize = 0;
        while i < k
            invariant
                i <= k <= n,
                n == m0.words.len(),
                self@ == m0,
                wh@ =~= m0.words.take(i as int),
            decreases k - i,
        {
            wh.push(self.parts[i]);
            i += 1;
        }
        let mut fr: Vec<u32> = Vec::new();
        let mut j: usize = k;
        while j < n
            invariant
                k <= j <= n,
                n == m0.words.len(),
                self@ == m0,
                fr@ =~= m0.words.subrange(k as int, j as int),
            decreases n - j,
        {
            fr.push(self.parts[j]);
            j += 1;
        }
        let frac_dec: i32 = if self.dec >= 0 {
            0
        } else {
            self.dec
        };
        let whole = FixedDec { sign: self.sign, dec: self.dec, parts: wh };
        let frac = FixedDec { sign: self.sign, dec: frac_dec, parts: fr };
        proof {
            assert(whole@.words =~= m0.whole_part().words);
            assert(frac@.words =~= m0.frac_part().words);
            assert(whole@ =~= m0.whole_part());
            assert(frac@ =~= m0.frac_part());
        }
        (whole, frac)
    }

    /// Strips leading and trailing zero words, moving the point along with
    /// the leading ones; an all-zero buffer collapses to the canonical zero.
    /// The denoted value does not change.
    pub fn trim(&mut self)
        requires
            old(self)@.words.len() <= MAX_LEN,
            old(self)@.lo() >= -0x8000_0000,
        ensures
            final(self)@.canonical(),
            same_value(old(self)@, final(self)@),
            final(self)@.sign == old(self)@.sign || final(self)@.is_zero_val(),
            !final(self)@.is_zero_val() ==> final(self)@.lo() >= old(self)@.lo(),
    {
        let ghost m0 = self@;
        let len = self.parts.len();
        let mut beg: usize = 0;
        while beg < len && self.parts[beg] == 0
            invariant
                0 <= beg <= len,
                len == self@.words.len(),
                self@ == m0,
                forall|k: int| 0 <= k < beg ==> m0.words[k] == 0,
            decreases len - beg,
        {
            beg += 1;
        }
        let mut end: usize = len;
        while end > beg && self.parts[end - 1] == 0
            invariant
                beg <= end <= len,
                len == self@.words.len(),
                self@ == m0,
                forall|k: int| end <= k < len ==> m0.words[k] == 0,
            decreases end,
        {
            end -= 1;
        }
        let mut out: Vec<u32> = Vec::new();
        let mut k = beg;
        while k < end
            invariant
                beg <= k <= end <= len,
                len == self@.words.len(),
                self@ == m0,
                out@ =~= m0.words.subrange(beg as int, k as int),
            decreases end - k,
        {
            out.push(self.parts[k]);
            k += 1;
        }
        if out.len() == 0 {
            self.sign = false;
            self.dec = 0;
        } else {
            self.dec = self.dec - (beg as i32);
        }
        self.parts = out;
        proof {
            let m1 = self@;
            lemma_trim_value(m0, m1, beg as int, end as int);
        }
    }
}

/// After dropping an all-zero prefix of `beg` words and an all-zero suffix
/// from `end` on (the point following the prefix), the value is unchanged
/// and the result is canonical.
proof fn lemma_trim_value(m0: FixedModel, m1: FixedModel, beg: int, end: int)
    requires
        0 <= beg <= end <= m0.words.len(),
        forall|k: int| 0 <= k < beg ==> m0.words[k] == 0,
        forall|k: int| end <= k < m0.words.len() ==> m0.words[k] == 0,
        beg < end ==> m0.words[beg] != 0 && m0.words[end - 1] != 0,
        m1.words =~= m0.words.subrange(beg, end),
        if beg == end {
            m1.point == 0 && !m1.sign
        } else {
            m1.point == m0.point - beg && m1.sign == m0.sign
        },
    ensures
        m1.canonical(),
        same_value(m0, m1),
        m1.sign == m0.sign || m1.is_zero_val(),
        !m1.is_zero_val() ==> m1.lo() >= m0.lo(),
{
    let w = m0.words;
    let n = w.len() as int;
    lemma_mag_split(w, beg);
    lemma_mag_all_zero(w.take(beg));
    assert(forall|k: int| 0 <= k < w.take(beg).len() ==> #[trigger] w.take(beg)[k] == 0);
    assert(mag(w.take(beg)) == 0);
    let rest = w.skip(beg);
    lemma_mag_split(rest, end - beg);
    lemma_mag_all_zero(rest.skip(end - beg));
    assert(forall|k: int|
        0 <= k < rest.skip(end - beg).len() ==> #[trigger] rest.skip(end - beg)[k] == 0);
    assert(mag(rest.skip(end - beg)) == 0);
    assert(rest.take(end - beg) =~= m1.words);
    assert(mag(w) == mag(rest));
    assert(mag(rest) == mag(m1.words) * pow2(32 * (rest.len() - (end - beg)) as nat));
    assert(32 * (rest.len() - (end - beg)) as nat == (32 * (n - end)) as nat);
    // mag(w) == mag(m1.words) * 2^(32 * (n - end))
    assert(mag(w) == mag(m1.words) * pow2((32 * (n - end)) as nat));
    // Compare values at the scale where m0 is exact.
    let t = -32 * m0.lo();
    assert(pow2((32 * m0.lo() + t) as nat) == 1) by {
        lemma2_to64();
    }
    assert(m0.at_scale(t) == m0.smag() * 1);
    if beg == end {
        assert(mag(m1.words) == 0);
        assert(mag(w) == 0) by (nonlinear_arith)
            requires
                mag(w) == mag(m1.words) * pow2((32 * (n - end)) as nat),
                mag(m1.words) == 0,
        ;
        assert(m0.smag() == 0);
        assert(m1.smag() == 0);
        assert(m1.at_scale(common_scale(m0, m1)) == 0) by (nonlinear_arith)
            requires
                m1.smag() == 0,
        ;
        assert(m0.at_scale(common_scale(m0, m1)) == 0) by (nonlinear_arith)
            requires
                m0.smag() == 0,
        ;
    } else {
        // m1.lo() == m0.point - beg - (end - beg) == m0.point - end
        assert(m1.lo() == m0.point - end);
        assert(m0.lo() == m0.point - n);
        let d = (32 * (n - end)) as nat;
        assert(m1.at_scale(t) == m1.smag() * pow2(((32 * (m0.point - end)) + t) as nat));
        assert((32 * (m0.point - end)) + t == d);
        assert(m1.smag() * pow2(d) == m0.smag()) by (nonlinear_arith)
            requires
                mag(w) == mag(m1.words) * pow2(d),
                m1.sign == m0.sign,
                m1.smag() == if m1.sign { -(mag(m1.words) as int) } else { mag(m1.words) as int },
                m0.smag() == if m0.sign { -(mag(w) as int) } else { mag(w) as int },
        ;
        assert(m1.at_scale(t) == m0.at_scale(t));
        lemma_same_at_common(m0, m1, t);
    }
}

} // verus!
