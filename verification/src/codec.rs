//! The fixed little-endian byte layout consumed on the GPU side:
//! a 4-byte sign flag, the 4-byte signed point, then each word as 4 bytes,
//! in storage order. No length prefix: the consumer fixes the word count
//! out of band, which is what `set_precision` is for.
use crate::fixed::FixedDec;
use crate::model::FixedModel;
use vstd::prelude::*;

verus! {

/// The four little-endian bytes of a 32-bit word.
pub open spec fn le_word(w: u32) -> Seq<u8> {
    seq![
        (w % 0x100) as u8,
        ((w / 0x100) % 0x100) as u8,
        ((w / 0x10000) % 0x100) as u8,
        ((w / 0x1000000) % 0x100) as u8,
    ]
}

/// The words of a buffer encoded back to back.
pub open spec fn encode_words(s: Seq<u32>) -> Seq<u8>
    decreases s.len(),
{
    if s.len() == 0 {
        Seq::<u8>::empty()
    } else {
        le_word(s[0]) + encode_words(s.skip(1))
    }
}

/// The point as its 32-bit two's-complement pattern.
pub open spec fn point_bits(p: int) -> u32 {
    (p % 0x1_0000_0000) as u32
}

/// The full encoding of a value: sign word, point word, then the buffer.
pub open spec fn encoding(m: FixedModel) -> Seq<u8> {
    le_word(
        if m.sign {
            1u32
        } else {
            0u32
        },
    ) + le_word(point_bits(m.point)) + encode_words(m.words)
}

/// Each word contributes exactly four bytes.
pub proof fn lemma_encode_words_len(s: Seq<u32>)
    ensures
        encode_words(s).len() == 4 * s.len(),
    decreases s.len(),
{
    if s.len() > 0 {
        lemma_encode_words_len(s.skip(1));
    }
}

/// The encoding is eight header bytes plus four per word.
pub proof fn lemma_encoding_len(m: FixedModel)
    ensures
        encoding(m).len() == 8 + 4 * m.words.len(),
{
    lemma_encode_words_len(m.words);
}

/// Extending the encoded prefix by one word appends its four bytes.
proof fn lemma_encode_words_snoc(s: Seq<u32>, i: int)
    requires
        0 <= i < s.len(),
    ensures
        encode_words(s.take(i + 1)) == encode_words(s.take(i)) + le_word(s[i]),
    decreases i,
{
    if i == 0 {
        assert(s.take(1).skip(1) =~= Seq::<u32>::empty());
        assert(s.take(0) =~= Seq::<u32>::empty());
        assert(encode_words(Seq::<u32>::empty()) == Seq::<u8>::empty());
        assert(s.take(1)[0] == s[0]);
        assert(encode_words(s.take(1)) == le_word(s[0]) + Seq::<u8>::empty());
        assert(le_word(s[0]) + Seq::<u8>::empty() =~= le_word(s[0]));
        assert(encode_words(s.take(0)) + le_word(s[0]) =~= le_word(s[0]));
    } else {
        let t = s.skip(1);
        lemma_encode_words_snoc(t, i - 1);
        assert(s.take(i + 1).skip(1) =~= t.take(i));
        assert(s.take(i).skip(1) =~= t.take(i - 1));
        assert(s.take(i + 1)[0] == s[0]);
        assert(s.take(i)[0] == s[0]);
        assert(t[i - 1] == s[i]);
        assert(encode_words(s.take(i + 1)) == le_word(s[0]) + encode_words(t.take(i)));
        assert(encode_words(s.take(i)) == le_word(s[0]) + encode_words(t.take(i - 1)));
        assert(le_word(s[0]) + (encode_words(t.take(i - 1)) + le_word(s[i])) =~= (le_word(s[0])
            + encode_words(t.take(i - 1))) + le_word(s[i]));
    }
}

/// Appends the four little-endian bytes of `w`.
fn push_word_bytes(bytes: &mut Vec<u8>, w: u32)
    ensures
        final(bytes)@ == old(bytes)@ + le_word(w),
{
    let ghost b0 = bytes@;
    bytes.push((w % 0x100) as u8);
    bytes.push(((w / 0x100) % 0x100) as u8);
    bytes.push(((w / 0x10000) % 0x100) as u8);
    bytes.push(((w / 0x1000000) % 0x100) as u8);
    proof {
        assert(bytes@ =~= b0 + le_word(w));
    }
}

impl FixedDec {
    /// Appends the fixed GPU layout of this value to a caller-owned buffer:
    /// sign flag, signed point, then each stored word, all as 4-byte
    /// little-endian fields, with no length prefix or padding.
    pub fn to_bytes(&self, bytes: &mut Vec<u8>)
        ensures
            final(bytes)@ == old(bytes)@ + encoding(self@),
    {
        let ghost b0 = bytes@;
        let ghost m = self@;
        let sw: u32 = if self.is_neg() {
            1
        } else {
            0
        };
        push_word_bytes(bytes, sw);
        let p = self.point();
        let pb: u32 = p as u32;
        proof {
            assert(pb == point_bits(p as int)) by (bit_vector)
                requires
                    pb == p as u32,
            ;
        }
        push_word_bytes(bytes, pb);
        let n = self.parts().len();
        let mut i: usize = 0;
        proof {
            assert(m.words.take(0) =~= Seq::<u32>::empty());
            assert(bytes@ =~= b0 + le_word(sw) + le_word(point_bits(m.point)) + encode_words(
                m.words.take(0),
            ));
        }
        while i < n
            invariant
                i <= n,
                n == m.words.len(),
                self@ == m,
                bytes@ == b0 + le_word(
                    if m.sign {
                        1u32
                    } else {
                        0u32
                    },
                ) + le_word(point_bits(m.point)) + encode_words(m.words.take(i as int)),
            decreases n - i,
        {
            let w = self.parts()[i];
            push_word_bytes(bytes, w);
            proof {
                lemma_encode_words_snoc(m.words, i as int);
                assert(bytes@ =~= b0 + le_word(
                    if m.sign {
                        1u32
                    } else {
                        0u32
                    },
                ) + le_word(point_bits(m.point)) + encode_words(m.words.take(i + 1)));
            }
            i += 1;
        }
        proof {
            assert(m.words.take(n as int) =~= m.words);
            assert(bytes@ =~= b0 + encoding(m));
        }
    }
}

} // verus!
