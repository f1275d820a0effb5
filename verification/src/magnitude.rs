//! The magnitude of a word buffer: big-endian base-2^32 interpretation of a
//! sequence of 32-bit words, together with the lemmas the arithmetic engine
//! needs (bounds, concatenation, splitting, injectivity).
use vstd::arithmetic::mul::*;
use vstd::arithmetic::power2::*;
use vstd::prelude::*;

verus! {

/// One word holds 32 bits.
pub const WORD_BITS: u32 = 32;

/// 2^32, the base of the word representation.
pub const BASE: u64 = 0x1_0000_0000;

/// The natural number denoted by `s` read as base-2^32 digits, most
/// significant first.
pub open spec fn mag(s: Seq<u32>) -> nat
    decreases s.len(),
{
    if s.len() == 0 {
        0
    } else {
        mag(s.drop_last()) * (BASE as nat) + s.last() as nat
    }
}

/// A sequence of `n` zero words.
pub open spec fn zero_words(n: nat) -> Seq<u32> {
    Seq::new(n, |i: int| 0u32)
}

pub proof fn lemma_mag_zero_words(n: nat)
    ensures
        mag(zero_words(n)) == 0,
    decreases n,
{
    if n > 0 {
        assert(zero_words(n).drop_last() =~= zero_words((n - 1) as nat));
        lemma_mag_zero_words((n - 1) as nat);
    }
}

pub proof fn lemma_mag_bound(s: Seq<u32>)
    ensures
        mag(s) < pow2(32 * s.len()),
    decreases s.len(),
{
    if s.len() == 0 {
        lemma_pow2_pos(0);
    } else {
        lemma_mag_bound(s.drop_last());
        lemma_pow2_adds(32 * (s.len() - 1) as nat, 32);
        lemma2_to64();
        let m = mag(s.drop_last());
        let p = pow2(32 * (s.len() - 1) as nat);
        assert(m * (BASE as nat) <= (p - 1) * (BASE as nat)) by (nonlinear_arith)
            requires
                m <= p - 1,
        ;
    }
}

/// Concatenation: the left block is shifted up by the width of the right block.
pub proof fn lemma_mag_concat(s: Seq<u32>, t: Seq<u32>)
    ensures
        mag(s + t) == mag(s) * pow2(32 * t.len()) + mag(t),
    decreases t.len(),
{
    if t.len() == 0 {
        assert(s + t =~= s);
        lemma2_to64();
        assert(pow2(0) == 1);
        assert(mag(s + t) == mag(s));
        assert(mag(t) == 0);
        assert(32 * t.len() == 0);
        assert(mag(s) * pow2(0) == mag(s));
    } else {
        let t0 = t.drop_last();
        assert((s + t).drop_last() =~= s + t0);
        assert((s + t).last() == t.last());
        lemma_mag_concat(s, t0);
        lemma_pow2_adds(32 * t0.len(), 32);
        lemma2_to64();
        let a = mag(s);
        let p = pow2(32 * t0.len());
        assert(32 * t.len() == 32 * t0.len() + 32);
        assert(pow2(32 * t.len()) == p * pow2(32));
        assert(mag(s + t) == mag(s + t0) * (BASE as nat) + t.last() as nat);
        assert((a * p + mag(t0)) * (BASE as nat) == a * (p * (BASE as nat)) + mag(t0) * (
        BASE as nat)) by (nonlinear_arith);
        assert(mag(s + t) == a * (p * (BASE as nat)) + mag(t));
        assert(pow2(32) == BASE as nat);
        assert(pow2(32 * t.len()) == p * (BASE as nat));
        assert(mag(s + t) == a * pow2(32 * t.len()) + mag(t));
    }
}

/// Splitting at `i`: the high part keeps weight `2^(32 * (len - i))`.
pub proof fn lemma_mag_split(s: Seq<u32>, i: int)
    requires
        0 <= i <= s.len(),
    ensures
        mag(s) == mag(s.take(i)) * pow2(32 * (s.len() - i) as nat) + mag(s.skip(i)),
{
    assert(s =~= s.take(i) + s.skip(i));
    lemma_mag_concat(s.take(i), s.skip(i));
}

pub proof fn lemma_mag_all_zero(s: Seq<u32>)
    ensures
        mag(s) == 0 <==> (forall|i: int| 0 <= i < s.len() ==> s[i] == 0),
    decreases s.len(),
{
    if s.len() > 0 {
        lemma_mag_all_zero(s.drop_last());
        if mag(s) == 0 {
            assert(mag(s.drop_last()) * (BASE as nat) == 0);
            assert(mag(s.drop_last()) == 0) by (nonlinear_arith)
                requires
                    mag(s.drop_last()) * (BASE as nat) == 0,
            ;
            assert(forall|i: int|
                0 <= i < s.len() ==> s[i] == (if i < s.len() - 1 {
                    s.drop_last()[i]
                } else {
                    s.last()
                }));
        } else {
            if s.last() == 0 {
                assert(mag(s.drop_last()) != 0);
            }
        }
    }
}

/// The least word is the remainder mod the base.
pub proof fn lemma_mag_last(s: Seq<u32>)
    requires
        s.len() > 0,
    ensures
        mag(s) % (BASE as nat) == s.last() as nat,
        mag(s) / (BASE as nat) == mag(s.drop_last()),
{
    let q = mag(s.drop_last());
    let r = s.last() as nat;
    assert((q * (BASE as nat) + r) % (BASE as nat) == r && (q * (BASE as nat) + r) / (
    BASE as nat) == q) by (nonlinear_arith)
        requires
            r < BASE as nat,
    ;
}

/// Two equally long buffers with the same magnitude hold the same words.
pub proof fn lemma_mag_injective(s: Seq<u32>, t: Seq<u32>)
    requires
        s.len() == t.len(),
        mag(s) == mag(t),
    ensures
        s =~= t,
    decreases s.len(),
{
    if s.len() > 0 {
        lemma_mag_last(s);
        lemma_mag_last(t);
        lemma_mag_injective(s.drop_last(), t.drop_last());
        assert(forall|i: int|
            0 <= i < s.len() - 1 ==> s[i] == s.drop_last()[i] && t[i] == t.drop_last()[i]);
    }
}

/// Extending a prefix by one word shifts it up and adds the word.
pub proof fn lemma_mag_take_unfold(s: Seq<u32>, i: int)
    requires
        0 <= i < s.len(),
    ensures
        mag(s.take(i + 1)) == mag(s.take(i)) * (BASE as nat) + s[i],
{
    assert(s.take(i + 1).drop_last() =~= s.take(i));
    assert(s.take(i + 1).last() == s[i]);
}

/// Peeling one word off the front of a suffix.
pub proof fn lemma_mag_skip_unfold(s: Seq<u32>, i: int)
    requires
        0 <= i < s.len(),
    ensures
        mag(s.skip(i)) == s[i] * pow2(32 * (s.len() - i - 1) as nat) + mag(s.skip(i + 1)),
{
    lemma_mag_split(s.skip(i), 1);
    assert(s.skip(i).take(1) =~= seq![s[i]]);
    assert(s.skip(i).skip(1) =~= s.skip(i + 1));
    assert(seq![s[i]].drop_last() =~= Seq::<u32>::empty());
    assert(mag(Seq::<u32>::empty()) == 0);
    assert(mag(seq![s[i]]) == s[i] as nat);
}

/// Lexicographic order on equally long buffers is magnitude order: a
/// smaller word at the first difference keeps the whole magnitude smaller.
pub proof fn lemma_mag_lex(s: Seq<u32>, t: Seq<u32>, i: int)
    requires
        s.len() == t.len(),
        0 <= i < s.len(),
        s.take(i) =~= t.take(i),
        s[i] < t[i],
    ensures
        mag(s) < mag(t),
{
    let n = s.len() as int;
    lemma_mag_split(s, i);
    lemma_mag_split(t, i);
    lemma_mag_skip_unfold(s, i);
    lemma_mag_skip_unfold(t, i);
    lemma_mag_bound(s.skip(i + 1));
    let p1 = pow2(32 * (n - i) as nat);
    let p2 = pow2(32 * (n - i - 1) as nat);
    lemma_pow2_pos(32 * (n - i - 1) as nat);
    assert(mag(s.skip(i)) < mag(t.skip(i))) by (nonlinear_arith)
        requires
            mag(s.skip(i)) == s[i] * p2 + mag(s.skip(i + 1)),
            mag(t.skip(i)) == t[i] * p2 + mag(t.skip(i + 1)),
            mag(s.skip(i + 1)) < p2,
            s[i] < t[i],
            p2 > 0,
    ;
    assert(mag(s) < mag(t)) by (nonlinear_arith)
        requires
            mag(s) == mag(s.take(i)) * p1 + mag(s.skip(i)),
            mag(t) == mag(t.take(i)) * p1 + mag(t.skip(i)),
            mag(s.take(i)) == mag(t.take(i)),
            mag(s.skip(i)) < mag(t.skip(i)),
    ;
}

/// A buffer whose leading word is nonzero reaches at least `2^(32 * (len - 1))`.
pub proof fn lemma_mag_lower_bound(s: Seq<u32>)
    requires
        s.len() > 0,
        s[0] != 0,
    ensures
        mag(s) >= pow2(32 * (s.len() - 1) as nat),
{
    lemma_mag_split(s, 1);
    assert(mag(s.take(1)) == mag(s.take(1).drop_last()) * (BASE as nat) + s.take(1).last() as nat);
    assert(s.take(1).drop_last() =~= Seq::<u32>::empty());
    assert(mag(s.take(1)) == s[0] as nat);
    let p = pow2(32 * (s.len() - 1) as nat);
    lemma_pow2_pos(32 * (s.len() - 1) as nat);
    assert(mag(s.take(1)) * p >= p) by (nonlinear_arith)
        requires
            mag(s.take(1)) >= 1,
            p > 0,
    ;
}

} // verus!
