//! The packed chunk: one node of the chain.

use vstd::prelude::*;

verus! {

use vstd::arithmetic::div_mod::*;
use vstd::arithmetic::mul::*;
use vstd::arithmetic::power2::*;
use vstd::bits::*;
use crate::codec;
use crate::error::Error;

/// Mask selecting the bit range `[lsb, msb)` of a word.
fn mask(msb: usize, lsb: usize) -> (r: u64)
    requires
        lsb <= msb,
        msb < 64,
    ensures
        r == pow2(msb as nat) - pow2(lsb as nat),
{
    let width = msb - lsb;
    proof {
        lemma2_to64();
        lemma2_to64_rest();
        lemma_u64_pow2_no_overflow(width as nat);
        lemma_u64_shl_is_mul(1u64, width as u64);
        lemma_mul_basics(pow2(width as nat) as int);
    }
    let m = (1u64 << (width as u64)) - 1;
    proof {
        lemma_pow2_adds(width as nat, lsb as nat);
        codec::lemma_pow2_le(msb as nat, 63);
        assert(m * pow2(lsb as nat) == pow2(msb as nat) - pow2(lsb as nat)) by {
            lemma_mul_is_distributive_sub_other_way(
                pow2(lsb as nat) as int,
                pow2(width as nat) as int,
                1,
            );
            lemma_mul_basics(pow2(lsb as nat) as int);
            lemma_pow2_adds(width as nat, lsb as nat);
        }
        lemma_u64_shl_is_mul(m, lsb as u64);
    }
    m << (lsb as u64)
}

/// A fixed-capacity packed run of nucleotides: the low 5 bits of the word
/// hold the length of the run, the 58 bits above hold up to 29 two-bit
/// codes, the first symbol of the run in the most significant used bits.
pub struct Node {
    word: u64,
}

impl Node {
    /// The length field of the word.
    pub closed spec fn spec_len(&self) -> nat {
        (self.word % 32) as nat
    }

    /// The packed payload of the word.
    pub closed spec fn spec_bits(&self) -> nat {
        (self.word / 32) as nat
    }

    /// The stored run, as a sequence of 2-bit codes.
    pub closed spec fn view(&self) -> Seq<u64> {
        codec::code_seq(self.spec_bits(), self.spec_len())
    }

    /// Well-formed: at most 29 symbols, and no stray bit above the
    /// `2 * length` packed ones.
    pub closed spec fn wf(&self) -> bool {
        self.spec_len() <= 29 && self.spec_bits() < pow2(2 * self.spec_len())
    }

    /// Read the length field.
    fn len_word(&self) -> (l: u64)
        ensures
            l == self.spec_len(),
    {
        let w = self.word;
        proof {
            assert(w & 31 == w % 32) by (bit_vector);
        }
        w & 31
    }

    /// Read the packed payload.
    fn bits_word(&self) -> (b: u64)
        ensures
            b == self.spec_bits(),
    {
        let w = self.word;
        proof {
            assert(w >> 5 == w / 32) by (bit_vector);
        }
        w >> 5
    }

    /// Assemble a word from a payload and a length field.
    fn make(bits: u64, len: u64) -> (n: Node)
        requires
            len <= 29,
            bits < pow2((2 * len) as nat),
        ensures
            n.wf(),
            n.spec_len() == len,
            n.spec_bits() == bits,
    {
        proof {
            lemma2_to64();
            lemma2_to64_rest();
            if 2 * len < 58 {
                lemma_pow2_strictly_increases((2 * len) as nat, 58);
            }
            lemma_u64_shl_is_mul(bits, 5);
            assert((bits << 5) % 32 == 0) by {
                lemma_mod_multiples_basic(bits as int, 32);
                lemma_mul_is_commutative(bits as int, 32);
            }
            codec::lemma_or_is_add(bits << 5, len, 5);
            lemma_fundamental_div_mod_converse(
                (bits * 32 + len) as int,
                32,
                bits as int,
                len as int,
            );
        }
        Node { word: (bits << 5) | len }
    }

    /// Create a new node holding the given run of symbols.
    pub fn new(seq: &[u8]) -> (r: Result<Node, Error>)
        ensures
            match r {
                Ok(n) => seq@.len() <= 29 && n.wf() && n@ == codec::codes_of(seq@),
                Err(e) => seq@.len() > 29 && e == Error::SeqToLargeForNode,
            },
    {
        if seq.len() > 29 {
            Err(Error::SeqToLargeForNode)
        } else {
            let bits = codec::seq2bit(seq);
            let n = Node::make(bits, seq.len() as u64);
            proof {
                codec::lemma_pack_valid(codec::codes_of(seq@));
            }
            Ok(n)
        }
    }

    /// Get length of sequence
    pub fn len(&self) -> (r: u64)
        requires
            self.wf(),
        ensures
            r == self@.len(),
    {
        proof {
            codec::lemma_code_seq_len(self.spec_bits(), self.spec_len());
        }
        self.len_word()
    }

    /// Return true if node is empty
    pub fn is_empty(&self) -> (r: bool)
        requires
            self.wf(),
        ensures
            r == (self@.len() == 0),
    {
        self.len() == 0
    }

    /// Get sequence in packed 2-bit representation
    pub fn bits(&self) -> (r: u64)
        requires
            self.wf(),
        ensures
            r == codec::pack(self@),
    {
        proof {
            codec::lemma_code_seq_pack(self.spec_bits(), self.spec_len());
        }
        self.bits_word()
    }

    /// Get sequence in ascii representation
    pub fn seq(&self) -> (r: Vec<u8>)
        requires
            self.wf(),
        ensures
            r@ == codec::nucs_of(self@),
    {
        codec::kmer2seq(self.bits_word(), self.len_word() as u8)
    }

    /// Get nucleotide in bits representation
    pub fn get_bits(&self, index: usize) -> (r: Option<u64>)
        requires
            self.wf(),
        ensures
            r == if index < self@.len() {
                Some(self@[index as int])
            } else {
                None::<u64>
            },
    {
        proof {
            codec::lemma_code_seq_len(self.spec_bits(), self.spec_len());
        }
        let l = self.len_word();
        if index >= l as usize {
            None
        } else {
            let corr = (l - index as u64 - 1) * 2;
            let b = self.bits_word();
            let code = (b >> corr) & 3;
            proof {
                lemma_u64_shr_is_div(b, corr);
                assert((b >> corr) & 3 == (b >> corr) % 4) by (bit_vector);
                codec::lemma_code_seq_index(self.spec_bits(), self.spec_len(), index as nat);
            }
            Some(code)
        }
    }

    /// Set nucleotide in bits representation
    #[verifier::rlimit(100)]
    pub fn set_bits(&mut self, index: usize, value: u64) -> (r: Option<()>)
        requires
            old(self).wf(),
            value < 4,
        ensures
            final(self).wf(),
            index < old(self)@.len() ==> r == Some(()) && final(self)@ == old(self)@.update(
                index as int,
                value,
            ),
            index >= old(self)@.len() ==> r == None::<()> && *final(self) == *old(self),
    {
        proof {
            codec::lemma_code_seq_len(self.spec_bits(), self.spec_len());
        }
        let l = self.len_word();
        if index >= l as usize {
            None
        } else {
            let b = self.bits_word();
            let corr = (l - index as u64 - 1) * 2;
            let hi = b >> (corr + 2);
            let lo = b & mask(corr as usize, 0);
            let ghost li = self.spec_len();
            let ghost ii = index as nat;
            proof {
                lemma2_to64();
                lemma2_to64_rest();
                lemma_u64_shr_is_div(b, (corr + 2) as u64);
                lemma_u64_low_bits_mask_is_mod(b, corr as nat);
                codec::lemma_code_seq_split(self.spec_bits(), li, ii);
                codec::lemma_code_seq_split(self.spec_bits(), li, ii + 1);
                codec::lemma_pow2_le(2 * ii + 2, 58);
                codec::lemma_combine_bound(hi as nat, value as nat, 2 * ii, 2);
                lemma_u64_shl_is_mul(hi, 2);
                codec::lemma_or_is_add(hi << 2, value, 2);
                codec::lemma_combine_bound(
                    ((hi << 2) | value) as nat,
                    lo as nat,
                    2 * ii + 2,
                    corr as nat,
                );
                lemma_u64_shl_is_mul((hi << 2) | value, corr);
                codec::lemma_or_is_add(((hi << 2) | value) << corr, lo, corr);
                codec::lemma_code_seq_concat(hi as nat, value as nat, ii, 1);
                codec::lemma_code_seq_concat(((hi << 2) | value) as nat, lo as nat, ii + 1, (li
                    - ii - 1) as nat);
                lemma_small_mod(value as nat, 4);
                assert(codec::code_seq(value as nat / 4, 0) =~= Seq::<u64>::empty());
                assert(codec::code_seq(value as nat, 1) =~= seq![value]);
                codec::lemma_code_seq_len(hi as nat, ii);
                codec::lemma_code_seq_len(lo as nat, (li - ii - 1) as nat);
                codec::lemma_code_seq_len(
                    (self.spec_bits() / pow2((2 * (li - ii)) as nat)) as nat,
                    ii,
                );
                codec::lemma_code_seq_len(
                    (self.spec_bits() / pow2((2 * (li - ii - 1)) as nat)) as nat,
                    ii + 1,
                );
                assert(codec::code_seq(((((hi << 2) | value) << corr) | lo) as nat, li)
                    =~= self@.update(index as int, value));
            }
            let nb = (((hi << 2) | value) << corr) | lo;
            *self = Node::make(nb, l);
            Some(())
        }
    }

    /// Set nucleotide in ascii representation
    pub fn set(&mut self, index: usize, nuc: u8) -> (r: Option<()>)
        requires
            old(self).wf(),
        ensures
            final(self).wf(),
            index < old(self)@.len() ==> r == Some(()) && final(self)@ == old(self)@.update(
                index as int,
                codec::code_of(nuc),
            ),
            index >= old(self)@.len() ==> r == None::<()> && *final(self) == *old(self),
    {
        let code = codec::nuc2bit(nuc);
        self.set_bits(index, code)
    }

    /// Add nucleotide at end
    pub fn push_back(&mut self, nuc: u8) -> (r: Result<(), Error>)
        requires
            old(self).wf(),
        ensures
            final(self).wf(),
            match r {
                Ok(()) => old(self)@.len() < 29 && final(self)@ == old(self)@.push(
                    codec::code_of(nuc),
                ),
                Err(e) => old(self)@.len() == 29 && e == Error::SeqToLargeForNode && *final(self)
                    == *old(self),
            },
    {
        proof {
            codec::lemma_code_seq_len(self.spec_bits(), self.spec_len());
        }
        let l = self.len_word();
        if l > 28 {
            Err(Error::SeqToLargeForNode)
        } else {
            let b = self.bits_word();
            let c = codec::nuc2bit(nuc);
            proof {
                lemma2_to64();
                lemma2_to64_rest();
                codec::lemma_pow2_le(2 * self.spec_len(), 56);
                lemma_u64_shl_is_mul(b, 2);
                assert((b << 2) % 4 == 0) by {
                    lemma_mod_multiples_basic(b as int, 4);
                    lemma_mul_is_commutative(b as int, 4);
                }
                codec::lemma_or_is_add(b << 2, c, 2);
                codec::lemma_code_seq_concat(b as nat, c as nat, self.spec_len(), 1);
                lemma_small_mod(c as nat, 4);
                lemma_pow2_adds(2 * self.spec_len(), 2);
                assert(codec::code_seq(((b << 2) | c) as nat, self.spec_len() + 1) =~= self@.push(
                    codec::code_of(nuc),
                ));
            }
            let nb = (b << 2) | c;
            *self = Node::make(nb, l + 1);
            Ok(())
        }
    }

    /// Add nucleotide at begin
    pub fn push_front(&mut self, nuc: u8) -> (r: Result<(), Error>)
        requires
            old(self).wf(),
        ensures
            final(self).wf(),
            match r {
                Ok(()) => old(self)@.len() < 29 && final(self)@ == seq![
                    codec::code_of(nuc),
                ] + old(self)@,
                Err(e) => old(self)@.len() == 29 && e == Error::SeqToLargeForNode && *final(self)
                    == *old(self),
            },
    {
        proof {
            codec::lemma_code_seq_len(self.spec_bits(), self.spec_len());
        }
        let l = self.len_word();
        if l > 28 {
            Err(Error::SeqToLargeForNode)
        } else {
            let b = self.bits_word();
            let c = codec::nuc2bit(nuc);
            let ghost tl = 2 * self.spec_len();
            proof {
                lemma2_to64();
                lemma2_to64_rest();
                codec::lemma_pow2_le(tl, 56);
                assert(c * pow2(tl) <= 3 * pow2(tl)) by {
                    lemma_mul_inequality(c as int, 3, pow2(tl) as int);
                }
                lemma_u64_shl_is_mul(c, (2 * l) as u64);
                assert((c << (2 * l)) % (pow2(tl) as u64) == 0) by {
                    lemma_mod_multiples_basic(c as int, pow2(tl) as int);
                    lemma_mul_is_commutative(c as int, pow2(tl) as int);
                }
                codec::lemma_or_is_add(c << (2 * l), b, (2 * l) as u64);
                codec::lemma_code_seq_concat(c as nat, b as nat, 1, self.spec_len());
                lemma_small_mod(c as nat, 4);
                lemma_pow2_adds(tl, 2);
                assert(codec::code_seq(c as nat / 4, 0) =~= Seq::<u64>::empty());
                assert(codec::code_seq(c as nat, 1) =~= seq![codec::code_of(nuc)]);
                assert(codec::code_seq(((c << (2 * l)) | b) as nat, self.spec_len() + 1) =~= seq![
                    codec::code_of(nuc),
                ] + self@);
            }
            let nb = (c << (2 * l)) | b;
            *self = Node::make(nb, l + 1);
            Ok(())
        }
    }

    /// Insert a run of nucleotides at position
    #[verifier::rlimit(100)]
    pub fn insert(&mut self, index: usize, nucs: &[u8]) -> (r: Result<(), Error>)
        requires
            old(self).wf(),
            index <= old(self)@.len(),
        ensures
            final(self).wf(),
            match r {
                Ok(()) => old(self)@.len() + nucs@.len() <= 29 && final(self)@ == old(
                    self,
                )@.take(index as int) + codec::codes_of(nucs@) + old(self)@.skip(index as int),
                Err(e) => old(self)@.len() + nucs@.len() > 29 && e == Error::SeqToLargeForNode
                    && *final(self) == *old(self),
            },
    {
        proof {
            codec::lemma_code_seq_len(self.spec_bits(), self.spec_len());
        }
        let l = self.len_word();
        if nucs.len() > 29 - l as usize {
            Err(Error::SeqToLargeForNode)
        } else {
            let m = nucs.len() as u64;
            let b = self.bits_word();
            let bin = (l - index as u64) * 2;
            let hi = b >> bin;
            let lo = b & mask(bin as usize, 0);
            let mid = codec::seq2bit(nucs);
            let ghost li = self.spec_len();
            let ghost ii = index as nat;
            let ghost mm = nucs@.len();
            proof {
                lemma2_to64();
                lemma2_to64_rest();
                lemma_u64_shr_is_div(b, bin);
                lemma_u64_low_bits_mask_is_mod(b, bin as nat);
                codec::lemma_code_seq_split(self.spec_bits(), li, ii);
                codec::lemma_pow2_le(2 * (ii + mm), 58);
                codec::lemma_pow2_le(2 * (li + mm), 58);
                codec::lemma_combine_bound(hi as nat, mid as nat, 2 * ii, 2 * mm);
                lemma_u64_shl_is_mul(hi, (2 * m) as u64);
                codec::lemma_or_is_add(hi << (2 * m), mid, (2 * m) as u64);
                codec::lemma_combine_bound(
                    ((hi << (2 * m)) | mid) as nat,
                    lo as nat,
                    2 * (ii + mm),
                    bin as nat,
                );
                lemma_u64_shl_is_mul((hi << (2 * m)) | mid, bin);
                codec::lemma_or_is_add(((hi << (2 * m)) | mid) << bin, lo, bin);
                codec::lemma_code_seq_concat(hi as nat, mid as nat, ii, mm);
                codec::lemma_code_seq_concat(
                    ((hi << (2 * m)) | mid) as nat,
                    lo as nat,
                    ii + mm,
                    (li - ii) as nat,
                );
                codec::lemma_pack_valid(codec::codes_of(nucs@));
                codec::lemma_code_seq_len(hi as nat, ii);
                codec::lemma_code_seq_len(lo as nat, (li - ii) as nat);
                assert(codec::code_seq(((((hi << (2 * m)) | mid) << bin) | lo) as nat, li + mm)
                    =~= self@.take(index as int) + codec::codes_of(nucs@) + self@.skip(
                    index as int,
                ));
            }
            let nb = (((hi << (2 * m)) | mid) << bin) | lo;
            *self = Node::make(nb, l + m);
            Ok(())
        }
    }

    /// Get nucleotide in ascii representation
    pub fn get(&self, index: usize) -> (r: Option<u8>)
        requires
            self.wf(),
        ensures
            r == if index < self@.len() {
                Some(codec::nuc_of(self@[index as int]))
            } else {
                None::<u8>
            },
    {
        match self.get_bits(index) {
            Some(code) => Some(codec::bit2nuc(code)),
            None => None,
        }
    }
}

} // verus!
