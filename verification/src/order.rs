//! Ordering of canonical values: sign first, then the point, then the
//! words lexicographically with implicit zero extension, each stage flipped
//! under a negative sign. Unlike a comparison that stops at the most
//! significant word, the word scan runs to the end, so the order is exactly
//! the numeric order.
use crate::fixed::{word_at, FixedDec, MAX_LEN};
use crate::magnitude::{
    lemma_mag_all_zero, lemma_mag_concat, lemma_mag_lex, lemma_mag_zero_words, mag, zero_words,
};
use crate::model::{common_scale, lemma_canonical_bracket, val_lt, FixedModel};
use core::cmp::Ordering;
use vstd::arithmetic::power2::*;
use vstd::prelude::*;

verus! {

/// Zero-extension of the stored words to a window of `n` words starting at
/// the buffer start.
spec fn ext_words(m: FixedModel, n: nat) -> Seq<u32> {
    Seq::new(n, |k: int| word_at(m, k))
}

/// The extension carries the magnitude shifted by the padding, so at the
/// window's scale the model reads as the signed extension magnitude.
proof fn lemma_ext_value(m: FixedModel, n: nat, c: int)
    requires
        m.words.len() <= n,
        c == -32 * (m.point - n),
    ensures
        m.at_scale(c) == if m.sign {
            -(mag(ext_words(m, n)) as int)
        } else {
            mag(ext_words(m, n)) as int
        },
{
    assert(ext_words(m, n) =~= m.words + zero_words((n - m.words.len()) as nat));
    lemma_mag_concat(m.words, zero_words((n - m.words.len()) as nat));
    lemma_mag_zero_words((n - m.words.len()) as nat);
    let e = (32 * (n - m.words.len())) as nat;
    assert((32 * m.lo() + c) as nat == e);
    assert(mag(ext_words(m, n)) == mag(m.words) * pow2(e));
    if m.sign {
        assert((-(mag(m.words) as int)) * pow2(e) == -(mag(m.words) * pow2(e)))
            by (nonlinear_arith);
    }
}

/// A canonical zero next to a canonical nonzero value: the nonzero side's
/// sign decides.
proof fn lemma_nonzero_sign(m: FixedModel, c: int)
    requires
        m.canonical(),
        !m.is_zero_val(),
        m.scale_ok(c),
    ensures
        m.sign ==> m.at_scale(c) < 0,
        !m.sign ==> m.at_scale(c) > 0,
{
    let e = (32 * m.lo() + c) as nat;
    lemma_pow2_pos(e);
    assert(mag(m.words) > 0);
    if m.sign {
        assert((-(mag(m.words) as int)) * pow2(e) < 0) by (nonlinear_arith)
            requires
                mag(m.words) > 0,
                pow2(e) > 0,
        ;
    } else {
        assert((mag(m.words) as int) * pow2(e) > 0) by (nonlinear_arith)
            requires
                mag(m.words) > 0,
                pow2(e) > 0,
        ;
    }
}

/// With equal signs, the smaller scaled magnitude is the smaller value for
/// positives and the greater one for negatives.
proof fn lemma_signed_compare(small: FixedModel, large: FixedModel, c: int)
    requires
        small.sign == large.sign,
        mag(small.words) * pow2((32 * small.lo() + c) as nat) < mag(large.words) * pow2(
            (32 * large.lo() + c) as nat,
        ),
    ensures
        !small.sign ==> small.at_scale(c) < large.at_scale(c),
        small.sign ==> large.at_scale(c) < small.at_scale(c),
{
    let es = (32 * small.lo() + c) as nat;
    let el = (32 * large.lo() + c) as nat;
    if small.sign {
        assert((-(mag(small.words) as int)) * pow2(es) == -(mag(small.words) * pow2(es)))
            by (nonlinear_arith);
        assert((-(mag(large.words) as int)) * pow2(el) == -(mag(large.words) * pow2(el)))
            by (nonlinear_arith);
    }
}

impl FixedDec {
    /// Total order on canonical values, agreeing exactly with the numeric
    /// order of the denoted values; `Equal` means the representations, and
    /// hence the values, coincide.
    #[verifier::rlimit(50)]
    pub fn cmp(&self, other: &FixedDec) -> (r: Ordering)
        requires
            self@.canonical(),
            other@.canonical(),
            self@.words.len() <= MAX_LEN,
            other@.words.len() <= MAX_LEN,
        ensures
            (r == Ordering::Equal) <==> self@ == other@,
            (r == Ordering::Less) <==> val_lt(self@, other@),
            (r == Ordering::Greater) <==> val_lt(other@, self@),
    {
        let ghost ma = self@;
        let ghost mb = other@;
        let ghost c = common_scale(ma, mb);
        let az = self.is_zero();
        let bz = other.is_zero();
        proof {
            lemma_mag_all_zero(ma.words);
            lemma_mag_all_zero(mb.words);
            if az {
                assert(ma.words.len() == 0);
                assert(ma.smag() == 0);
                assert(ma.at_scale(c) == 0) by (nonlinear_arith)
                    requires
                        ma.smag() == 0,
                ;
            }
            if bz {
                assert(mb.words.len() == 0);
                assert(mb.smag() == 0);
                assert(mb.at_scale(c) == 0) by (nonlinear_arith)
                    requires
                        mb.smag() == 0,
                ;
            }
        }
        if az && bz {
            proof {
                assert(ma.words =~= mb.words);
                assert(ma =~= mb);
            }
            return Ordering::Equal;
        }
        if az {
            proof {
                lemma_nonzero_sign(mb, c);
            }
            if other.is_neg() {
                return Ordering::Greater;
            } else {
                return Ordering::Less;
            }
        }
        if bz {
            proof {
                lemma_nonzero_sign(ma, c);
            }
            if self.is_neg() {
                return Ordering::Less;
            } else {
                return Ordering::Greater;
            }
        }
        let neg = self.is_neg();
        if neg != other.is_neg() {
            proof {
                lemma_nonzero_sign(ma, c);
                lemma_nonzero_sign(mb, c);
            }
            if neg {
                return Ordering::Less;
            } else {
                return Ordering::Greater;
            }
        }
        let pa = self.point();
        let pb = other.point();
        if pa != pb {
            proof {
                lemma_canonical_bracket(ma, c);
                lemma_canonical_bracket(mb, c);
                if pa < pb {
                    assert(32 * ma.point + c <= 32 * (mb.point - 1) + c);
                    if 32 * ma.point + c < 32 * (mb.point - 1) + c {
                        lemma_pow2_strictly_increases(
                            (32 * ma.point + c) as nat,
                            (32 * (mb.point - 1) + c) as nat,
                        );
                    }
                    assert(mag(ma.words) * pow2((32 * ma.lo() + c) as nat) < mag(mb.words) * pow2(
                        (32 * mb.lo() + c) as nat,
                    ));
                    lemma_signed_compare(ma, mb, c);
                } else {
                    assert(32 * mb.point + c <= 32 * (ma.point - 1) + c);
                    if 32 * mb.point + c < 32 * (ma.point - 1) + c {
                        lemma_pow2_strictly_increases(
                            (32 * mb.point + c) as nat,
                            (32 * (ma.point - 1) + c) as nat,
                        );
                    }
                    assert(mag(mb.words) * pow2((32 * mb.lo() + c) as nat) < mag(ma.words) * pow2(
                        (32 * ma.lo() + c) as nat,
                    ));
                    lemma_signed_compare(mb, ma, c);
                }
            }
            let smaller_mag = pa < pb;
            if smaller_mag == neg {
                return Ordering::Greater;
            } else {
                return Ordering::Less;
            }
        }
        // Same sign and point: full lexicographic word comparison, with the
        // shorter buffer read as zero-extended.
        let na = self.parts().len();
        let nb = other.parts().len();
        let n = if na >= nb {
            na
        } else {
            nb
        };
        let ghost ea = ext_words(ma, n as nat);
        let ghost eb = ext_words(mb, n as nat);
        proof {
            assert(c == -32 * (ma.point - n));
            lemma_ext_value(ma, n as nat, c);
            lemma_ext_value(mb, n as nat, c);
        }
        let mut i: usize = 0;
        while i < n
            invariant
                i <= n,
                n <= MAX_LEN,
                na <= n,
                nb <= n,
                self@ == ma,
                other@ == mb,
                na == ma.words.len(),
                nb == mb.words.len(),
                ea == ext_words(ma, n as nat),
                eb == ext_words(mb, n as nat),
                c == common_scale(ma, mb),
                c == -32 * (ma.point - n),
                ma.point == mb.point,
                ma.sign == mb.sign,
                neg == ma.sign,
                forall|k: int| 0 <= k < i ==> word_at(ma, k) == word_at(mb, k),
            decreases n - i,
        {
            let av = self.part(i as i32);
            let bv = other.part(i as i32);
            if av != bv {
                proof {
                    lemma_ext_value(ma, n as nat, c);
                    lemma_ext_value(mb, n as nat, c);
                    assert(ea.take(i as int) =~= eb.take(i as int));
                    if av < bv {
                        lemma_mag_lex(ea, eb, i as int);
                    } else {
                        lemma_mag_lex(eb, ea, i as int);
                    }
                }
                let smaller_mag = av < bv;
                if smaller_mag == neg {
                    return Ordering::Greater;
                } else {
                    return Ordering::Less;
                }
            }
            i += 1;
        }
        proof {
            if na < nb {
                assert(word_at(mb, nb - 1) == word_at(ma, nb - 1));
                assert(word_at(ma, nb - 1) == 0);
                assert(mb.words.last() != 0);
                assert(false);
            }
            if nb < na {
                assert(word_at(ma, na - 1) == word_at(mb, na - 1));
                assert(word_at(mb, na - 1) == 0);
                assert(ma.words.last() != 0);
                assert(false);
            }
            assert forall|k: int| 0 <= k < na implies ma.words[k] == mb.words[k] by {
                assert(word_at(ma, k) == word_at(mb, k));
            }
            assert(ma.words =~= mb.words);
            assert(ma =~= mb);
        }
        Ordering::Equal
    }
}

} // verus!
