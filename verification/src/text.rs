//! Diagnostic raw-bit rendering: every stored word as 32 binary digits,
//! most significant first, words separated by underscores, the binary
//! point marked with a dot, a leading minus for a negative sign, and the
//! implicit zero words written out when the point lies outside the buffer.
use crate::fixed::{FixedDec, MAX_LEN};
use vstd::arithmetic::power2::*;
use vstd::prelude::*;
use vstd::string::StringExecFns;

verus! {

/// Digit `i` (from the most significant end) of a word.
pub open spec fn bit_char(w: u32, i: int) -> char {
    if (w as nat / pow2((31 - i) as nat)) % 2 == 1 {
        '1'
    } else {
        '0'
    }
}

/// The 32 binary digits of a word, most significant first.
pub open spec fn bin_word(w: u32) -> Seq<char> {
    Seq::new(32, |i: int| bit_char(w, i))
}

/// `k` implicit zero words, each preceded by its separator.
pub open spec fn zero_blocks(k: nat) -> Seq<char>
    decreases k,
{
    if k == 0 {
        Seq::<char>::empty()
    } else {
        zero_blocks((k - 1) as nat) + seq!['_'] + bin_word(0)
    }
}

/// The separator written before word `i`: the point's dot, an underscore
/// between words, nothing before the first word.
pub open spec fn word_sep(m: crate::model::FixedModel, i: int) -> Seq<char> {
    if i == m.point {
        seq!['.']
    } else if i != 0 {
        seq!['_']
    } else {
        Seq::<char>::empty()
    }
}

/// The first `i` stored words rendered with their separators.
pub open spec fn words_render(m: crate::model::FixedModel, i: int) -> Seq<char>
    decreases i,
{
    if i <= 0 {
        Seq::<char>::empty()
    } else {
        words_render(m, i - 1) + word_sep(m, i - 1) + bin_word(m.words[i - 1])
    }
}

/// The full rendering: sign, the implicit zero words before the buffer
/// when the point is negative, the stored words, and the implicit zero
/// words after the buffer when the point lies beyond it.
pub open spec fn bin_render(m: crate::model::FixedModel) -> Seq<char> {
    let sign_part = if m.sign {
        seq!['-']
    } else {
        Seq::<char>::empty()
    };
    let head = if m.point < 0 {
        seq!['.'] + bin_word(0) + zero_blocks((-m.point - 1) as nat)
    } else {
        Seq::<char>::empty()
    };
    let tail = if m.point > m.words.len() {
        zero_blocks((m.point - m.words.len()) as nat)
    } else {
        Seq::<char>::empty()
    };
    sign_part + head + words_render(m, m.words.len() as int) + tail
}

/// Appends the 32 binary digits of `w`.
fn push_word_bits(out: &mut String, w: u32)
    ensures
        final(out)@ == old(out)@ + bin_word(w),
{
    let ghost base = out@;
    let mut j: usize = 0;
    proof {
        assert(bin_word(w).take(0) =~= Seq::<char>::empty());
        assert(out@ =~= base + bin_word(w).take(0));
    }
    while j < 32
        invariant
            j <= 32,
            out@ == base + bin_word(w).take(j as int),
        decreases 32 - j,
    {
        let sh: u32 = (31 - j) as u32;
        proof {
            vstd::bits::lemma_u32_shr_is_div(w, sh);
            vstd::bits::lemma_u32_low_bits_mask_is_mod(w >> sh, 1);
            vstd::bits::lemma_low_bits_mask_values();
            lemma2_to64();
        }
        let bit: u32 = (w >> sh) & 1;
        let ghost prev = out@;
        if bit == 1 {
            out.append("1");
            proof {
                reveal_strlit("1");
                assert(bit_char(w, j as int) == '1');
                assert(out@ =~= base + bin_word(w).take(j + 1));
            }
        } else {
            out.append("0");
            proof {
                reveal_strlit("0");
                assert(bit_char(w, j as int) == '0');
                assert(out@ =~= base + bin_word(w).take(j + 1));
            }
        }
        j += 1;
    }
    proof {
        assert(bin_word(w).take(32) =~= bin_word(w));
    }
}

/// Appends an underscore and an implicit zero word.
fn push_zero_block(out: &mut String)
    ensures
        final(out)@ == old(out)@ + seq!['_'] + bin_word(0),
{
    let ghost base = out@;
    out.append("_");
    proof {
        reveal_strlit("_");
        assert(out@ =~= base + seq!['_']);
    }
    push_word_bits(out, 0);
}

impl FixedDec {
    /// The raw-bit rendering of this value, for debugging: each word as 32
    /// binary digits, a dot at the binary point, underscores between
    /// words, and the implicit zero words written out where the point lies
    /// outside the stored buffer.
    pub fn to_bit_string(&self) -> (r: String)
        requires
            self@.words.len() <= MAX_LEN,
            self@.point > -0x8000_0000,
        ensures
            r@ == bin_render(self@),
    {
        let ghost m = self@;
        let mut out = String::new();
        if self.is_neg() {
            out.append("-");
        }
        let ghost sign_part: Seq<char> = if m.sign {
            seq!['-']
        } else {
            Seq::<char>::empty()
        };
        proof {
            reveal_strlit("-");
            assert(out@ =~= sign_part);
        }
        let p = self.point();
        if p < 0 {
            out.append(".");
            proof {
                reveal_strlit(".");
                assert(out@ =~= sign_part + seq!['.']);
            }
            push_word_bits(&mut out, 0);
            let blocks: usize = ((-(p as i64)) - 1) as usize;
            let mut k: usize = 0;
            while k < blocks
                invariant
                    k <= blocks,
                    m == self@,
                    sign_part == (if m.sign {
                        seq!['-']
                    } else {
                        Seq::<char>::empty()
                    }),
                    out@ == sign_part + (seq!['.'] + bin_word(0)) + zero_blocks(k as nat),
                decreases blocks - k,
            {
                push_zero_block(&mut out);
                proof {
                    assert(out@ =~= sign_part + (seq!['.'] + bin_word(0)) + zero_blocks(
                        (k + 1) as nat,
                    ));
                }
                k += 1;
            }
        }
        let ghost head: Seq<char> = if m.point < 0 {
            seq!['.'] + bin_word(0) + zero_blocks((-m.point - 1) as nat)
        } else {
            Seq::<char>::empty()
        };
        proof {
            assert(out@ =~= sign_part + head);
            assert(words_render(m, 0) == Seq::<char>::empty());
            assert(out@ =~= sign_part + head + words_render(m, 0));
        }
        let n = self.parts().len();
        let mut i: usize = 0;
        while i < n
            invariant
                i <= n,
                n == m.words.len(),
                n <= MAX_LEN,
                m == self@,
                sign_part == (if m.sign {
                    seq!['-']
                } else {
                    Seq::<char>::empty()
                }),
                head == (if m.point < 0 {
                    seq!['.'] + bin_word(0) + zero_blocks((-m.point - 1) as nat)
                } else {
                    Seq::<char>::empty()
                }),
                out@ == sign_part + head + words_render(m, i as int),
            decreases n - i,
        {
            let ghost pre = out@;
            if i as i32 == self.point() {
                out.append(".");
                proof {
                    reveal_strlit(".");
                    assert(out@ =~= pre + word_sep(m, i as int));
                }
            } else if i != 0 {
                out.append("_");
                proof {
                    reveal_strlit("_");
                    assert(out@ =~= pre + word_sep(m, i as int));
                }
            } else {
                proof {
                    assert(out@ =~= pre + word_sep(m, i as int));
                }
            }
            let w = self.part(i as i32);
            push_word_bits(&mut out, w);
            proof {
                assert(w == m.words[i as int]);
                assert(out@ =~= sign_part + head + words_render(m, i + 1));
            }
            i += 1;
        }
        let ghost body = sign_part + head + words_render(m, m.words.len() as int);
        let tail_count: usize = if p >= 0 {
            let du = p as usize;
            if du > n {
                du - n
            } else {
                0
            }
        } else {
            0
        };
        proof {
            assert(out@ =~= body + zero_blocks(0));
        }
        let mut k: usize = 0;
        while k < tail_count
            invariant
                k <= tail_count,
                out@ == body + zero_blocks(k as nat),
            decreases tail_count - k,
        {
            push_zero_block(&mut out);
            proof {
                assert(out@ =~= body + zero_blocks((k + 1) as nat));
            }
            k += 1;
        }
        proof {
            if m.point > m.words.len() {
                assert(tail_count as nat == (m.point - m.words.len()) as nat);
            } else {
                assert(tail_count == 0);
            }
            assert(out@ =~= bin_render(m));
        }
        out
    }
}

} // verus!
