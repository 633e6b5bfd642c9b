//! The nucleotide <-> 2-bit codec.
//!
//! A nucleotide byte is encoded as the 2-bit code `(byte >> 1) & 0b11`,
//! which maps `A` (and `a`) to 0, `C`/`c` to 1, `T`/`t` to 2 and `G`/`g`
//! to 3. Decoding always yields the canonical upper-case symbol, so a
//! round trip canonicalises the input. A run of symbols is packed into
//! one integer, the leftmost symbol occupying the most significant used
//! bits.

use vstd::prelude::*;

verus! {

use vstd::arithmetic::div_mod::*;
use vstd::arithmetic::mul::*;
use vstd::arithmetic::power2::*;
use vstd::bits::*;

/// The 2-bit code of a nucleotide byte: bits one and two of the byte.
pub open spec fn code_of(nuc: u8) -> u64 {
    ((nuc / 2) % 4) as u64
}

/// The canonical (upper-case) nucleotide of a 2-bit code.
pub open spec fn nuc_of(code: u64) -> u8 {
    if code % 4 == 0 {
        65u8
    } else if code % 4 == 1 {
        67u8
    } else if code % 4 == 2 {
        84u8
    } else {
        71u8
    }
}

/// The codes of a symbol sequence, in order.
pub open spec fn codes_of(s: Seq<u8>) -> Seq<u64> {
    s.map(|_i: int, c: u8| code_of(c))
}

/// The symbols of a code sequence, in order.
pub open spec fn nucs_of(s: Seq<u64>) -> Seq<u8> {
    s.map(|_i: int, c: u64| nuc_of(c))
}

/// The canonical form of a symbol sequence: what decoding an encoding gives.
pub open spec fn canonicalize(s: Seq<u8>) -> Seq<u8> {
    s.map(|_i: int, c: u8| nuc_of(code_of(c)))
}

/// A code sequence packed into an integer: the first code occupies the
/// most significant used bit pair, the last code the two lowest bits.
pub open spec fn pack(s: Seq<u64>) -> nat
    decreases s.len(),
{
    if s.len() == 0 {
        0
    } else {
        pack(s.drop_last()) * 4 + (s.last() as nat)
    }
}

/// The code sequence held in the low `2 * len` bits of an integer,
/// read from the most significant used bit pair down.
pub open spec fn code_seq(bits: nat, len: nat) -> Seq<u64>
    decreases len,
{
    if len == 0 {
        Seq::empty()
    } else {
        code_seq(bits / 4, (len - 1) as nat).push((bits % 4) as u64)
    }
}

/// `code_seq(bits, len)` has exactly `len` elements.
pub proof fn lemma_code_seq_len(bits: nat, len: nat)
    ensures
        code_seq(bits, len).len() == len,
    decreases len,
{
    if len > 0 {
        lemma_code_seq_len(bits / 4, (len - 1) as nat);
    }
}

/// A run packed above `n` low code slots concatenates with the run below.
pub proof fn lemma_code_seq_concat(x: nat, y: nat, k: nat, n: nat)
    requires
        y < pow2(2 * n),
    ensures
        code_seq(x * pow2(2 * n) + y, k + n) == code_seq(x, k) + code_seq(y, n),
    decreases n,
{
    if n == 0 {
        lemma2_to64();
        assert(x * 1 == x) by {
            lemma_mul_basics(x as int);
        }
        assert(code_seq(x, k) + code_seq(y, 0) =~= code_seq(x, k));
    } else {
        let n1 = (n - 1) as nat;
        let p = pow2(2 * n);
        let p1 = pow2(2 * n1);
        lemma_pow2_adds(2 * n1, 2);
        lemma2_to64();
        assert(p == p1 * 4);
        let b = x * p + y;
        let q = x * p1 + y / 4;
        let r = y % 4;
        lemma_fundamental_div_mod(y as int, 4);
        assert(x * p == (x * p1) * 4) by {
            lemma_mul_is_associative(x as int, p1 as int, 4);
        }
        assert(b == q * 4 + r);
        lemma_fundamental_div_mod_converse(b as int, 4, q as int, r as int);
        assert(y / 4 < p1) by {
            lemma_multiply_divide_lt(y as int, 4, p1 as int);
        }
        lemma_code_seq_concat(x, y / 4, k, n1);
        lemma_code_seq_len(x, k);
        lemma_code_seq_len(y / 4, n1);
        assert(code_seq(b, k + n) =~= code_seq(x, k) + code_seq(y, n));
    }
}

/// A valid code run is below `pow2` of twice its length when packed, and
/// is recovered exactly from its packed form.
pub proof fn lemma_pack_valid(s: Seq<u64>)
    requires
        forall|i: int| 0 <= i < s.len() ==> s[i] < 4,
    ensures
        pack(s) < pow2(2 * s.len()),
        code_seq(pack(s), s.len()) == s,
    decreases s.len(),
{
    if s.len() == 0 {
        lemma2_to64();
        assert(code_seq(0, 0) =~= s);
    } else {
        let d = s.drop_last();
        lemma_pack_valid(d);
        let l1 = d.len();
        lemma_pow2_adds(2 * l1, 2);
        lemma2_to64();
        assert(pack(d) * 4 <= (pow2(2 * l1) - 1) * 4) by {
            lemma_mul_inequality(pack(d) as int, pow2(2 * l1) - 1, 4);
        }
        lemma_fundamental_div_mod_converse(
            pack(s) as int,
            4,
            pack(d) as int,
            s.last() as int,
        );
        lemma_code_seq_len(pack(d), l1);
        assert(code_seq(pack(s), s.len()) =~= s);
    }
}

/// Packing the run stored in an integer's low bits gives the integer back.
pub proof fn lemma_code_seq_pack(bits: nat, len: nat)
    requires
        bits < pow2(2 * len),
    ensures
        pack(code_seq(bits, len)) == bits,
    decreases len,
{
    if len == 0 {
        lemma2_to64();
    } else {
        let l1 = (len - 1) as nat;
        lemma_pow2_adds(2 * l1, 2);
        lemma2_to64();
        assert(bits / 4 < pow2(2 * l1)) by {
            lemma_multiply_divide_lt(bits as int, 4, pow2(2 * l1) as int);
        }
        lemma_code_seq_pack(bits / 4, l1);
        lemma_code_seq_len(bits / 4, l1);
        let pre = code_seq(bits / 4, l1);
        assert(pre.push((bits % 4) as u64).drop_last() =~= pre);
        lemma_fundamental_div_mod(bits as int, 4);
    }
}

/// The code at position `i` sits `2 * (len - i - 1)` bits up the word.
pub proof fn lemma_code_seq_index(bits: nat, len: nat, i: nat)
    requires
        i < len,
    ensures
        code_seq(bits, len)[i as int] == (((bits / pow2((2 * (len - i - 1)) as nat)) % 4) as u64),
    decreases len,
{
    lemma_code_seq_len(bits / 4, (len - 1) as nat);
    if i == len - 1 {
        lemma2_to64();
        assert(bits / pow2(0) == bits);
    } else {
        lemma_code_seq_index(bits / 4, (len - 1) as nat, i);
        let e = (2 * (len - i - 2)) as nat;
        lemma_pow2_adds(2, e);
        lemma2_to64();
        lemma_pow2_pos(e);
        lemma_div_denominator(bits as int, 4, pow2(e) as int);
    }
}

/// `pow2` is monotonic.
pub proof fn lemma_pow2_le(a: nat, b: nat)
    requires
        a <= b,
    ensures
        pow2(a) <= pow2(b),
{
    if a < b {
        lemma_pow2_strictly_increases(a, b);
    }
}

/// Splitting the run held in an integer at a slot boundary: the codes
/// above the boundary come from the quotient, those below from the rest.
pub proof fn lemma_code_seq_split(bits: nat, len: nat, j: nat)
    requires
        j <= len,
        bits < pow2(2 * len),
    ensures
        bits / pow2((2 * (len - j)) as nat) < pow2(2 * j),
        bits % pow2((2 * (len - j)) as nat) < pow2((2 * (len - j)) as nat),
        code_seq(bits, len) == code_seq(bits / pow2((2 * (len - j)) as nat), j) + code_seq(
            bits % pow2((2 * (len - j)) as nat),
            (len - j) as nat,
        ),
{
    let m = (len - j) as nat;
    let p = pow2(2 * m);
    lemma_pow2_pos(2 * m);
    lemma_fundamental_div_mod(bits as int, p as int);
    lemma_mod_division_less_than_divisor(bits as int, p as int);
    lemma_pow2_adds(2 * j, 2 * m);
    assert(bits / p < pow2(2 * j)) by {
        lemma_mul_is_commutative(p as int, pow2(2 * j) as int);
        lemma_multiply_divide_lt(bits as int, p as int, pow2(2 * j) as int);
    }
    assert((bits / p) * p + bits % p == bits) by {
        lemma_mul_is_commutative(p as int, (bits / p) as int);
    }
    lemma_code_seq_concat(bits / p, bits % p, j, m);
}

/// A high part, bounded by its slot count and scaled past `b` bits, and
/// a low part under those bits combine into a bounded sum with the high
/// part a multiple of `pow2(b)`.
pub proof fn lemma_combine_bound(x: nat, y: nat, a: nat, b: nat)
    requires
        x < pow2(a),
        y < pow2(b),
    ensures
        x * pow2(b) + y < pow2(a + b),
        (x * pow2(b)) % pow2(b) == 0,
{
    lemma_pow2_adds(a, b);
    lemma_pow2_pos(b);
    assert(x * pow2(b) <= (pow2(a) - 1) * pow2(b)) by {
        lemma_mul_inequality(x as int, pow2(a) - 1, pow2(b) as int);
    }
    assert((pow2(a) - 1) * pow2(b) == pow2(a) * pow2(b) - 1 * pow2(b)) by {
        lemma_mul_is_distributive_sub_other_way(pow2(b) as int, pow2(a) as int, 1);
    }
    assert(1 * pow2(b) == pow2(b)) by {
        lemma_mul_basics(pow2(b) as int);
    }
    assert((x * pow2(b)) % pow2(b) == 0) by {
        lemma_mod_multiples_basic(x as int, pow2(b) as int);
    }
}

/// Two words with no bit in common add when or-ed: the high part is a
/// multiple of `pow2(s)` and the low part lies under it.
pub proof fn lemma_or_is_add(a: u64, b: u64, s: u64)
    requires
        s < 64,
        a % (pow2(s as nat) as u64) == 0,
        b < pow2(s as nat),
    ensures
        a | b == a + b,
{
    vstd::bits::lemma_u64_pow2_no_overflow(s as nat);
    let p = pow2(s as nat) as u64;
    let q = a / p;
    lemma_fundamental_div_mod(a as int, p as int);
    vstd::bits::lemma_u64_shr_is_div(a, s);
    assert(a == q * p) by {
        lemma_mul_is_commutative(q as int, p as int);
    }
    vstd::bits::lemma_u64_shl_is_mul(q, s);
    vstd::bits::lemma_u64_shl_is_mul(1, s);
    assert(1 * pow2(s as nat) == pow2(s as nat)) by {
        lemma_mul_basics(pow2(s as nat) as int);
    }
    assert((a == ((a >> s) << s) && b < (1u64 << s) && s < 64) ==> (a | b == a
        + b)) by (bit_vector);
}

/// The codec is a bijection between 2-bit codes and canonical symbols:
/// decoding a code then encoding gives the code back, and encoding a
/// canonical symbol then decoding gives the symbol back.
pub proof fn lemma_codec_bijection(code: u64, nuc: u8)
    requires
        code < 4,
        nuc == 65 || nuc == 67 || nuc == 84 || nuc == 71,
    ensures
        code_of(nuc_of(code)) == code,
        nuc_of(code_of(nuc)) == nuc,
{
    lemma_small_mod(code as nat, 4);
}

/// Encode one nucleotide as its 2-bit code.
pub fn nuc2bit(nuc: u8) -> (r: u64)
    ensures
        r == code_of(nuc),
        r < 4,
{
    proof {
        assert((nuc >> 1) & 3 == (nuc / 2) % 4 && (nuc >> 1) & 3 < 4) by (bit_vector);
    }
    ((nuc >> 1) & 3) as u64
}

/// Decode one 2-bit code to its canonical nucleotide.
pub fn bit2nuc(bit: u64) -> (r: u8)
    ensures
        r == nuc_of(bit),
{
    let low = bit % 4;
    if low == 0 {
        65u8
    } else if low == 1 {
        67u8
    } else if low == 2 {
        84u8
    } else {
        71u8
    }
}

/// Encode a run of nucleotides into one packed integer, the leftmost
/// symbol in the most significant used bits.
pub fn seq2bit(seq: &[u8]) -> (r: u64)
    requires
        seq@.len() <= 29,
    ensures
        r == pack(codes_of(seq@)),
        r < pow2(2 * seq@.len()),
{
    let mut kmer: u64 = 0;
    let mut i: usize = 0;
    proof {
        assert(codes_of(seq@.take(0)) =~= Seq::<u64>::empty());
        lemma2_to64();
    }
    while i < seq.len()
        invariant
            seq@.len() <= 29,
            i <= seq@.len(),
            kmer == pack(codes_of(seq@.take(i as int))),
            kmer < pow2(2 * (i as nat)),
        decreases seq@.len() - i,
    {
        let c = nuc2bit(*vstd::slice::slice_index_get(seq, i));
        proof {
            lemma2_to64();
            lemma2_to64_rest();
            lemma_pow2_strictly_increases(2 * (i as nat), 58);
            lemma_u64_shl_is_mul(kmer, 2);
            assert((kmer << 2) % 4 == 0) by {
                lemma_mod_multiples_basic(kmer as int, 4);
                lemma_mul_is_commutative(kmer as int, 4);
            }
            lemma_or_is_add(kmer << 2, c, 2);
            let old_codes = codes_of(seq@.take(i as int));
            let new_codes = codes_of(seq@.take(i as int + 1));
            assert(new_codes.drop_last() =~= old_codes);
            assert(new_codes.last() == code_of(seq@[i as int]));
            assert(forall|j: int| 0 <= j < new_codes.len() ==> new_codes[j] < 4);
            lemma_pack_valid(new_codes);
        }
        kmer = (kmer << 2) | c;
        i = i + 1;
    }
    proof {
        assert(seq@.take(seq@.len() as int) =~= seq@);
    }
    kmer
}

/// Decode the `len` codes packed in an integer back into nucleotides,
/// leftmost first.
pub fn kmer2seq(kmer: u64, len: u8) -> (r: Vec<u8>)
    requires
        len <= 29,
    ensures
        r@ == nucs_of(code_seq(kmer as nat, len as nat)),
{
    let ghost cs = code_seq(kmer as nat, len as nat);
    proof {
        lemma_code_seq_len(kmer as nat, len as nat);
    }
    let mut out: Vec<u8> = Vec::new();
    let mut i: u8 = 0;
    while i < len
        invariant
            len <= 29,
            i <= len,
            cs == code_seq(kmer as nat, len as nat),
            cs.len() == len,
            out@ == nucs_of(cs).take(i as int),
        decreases len - i,
    {
        let corr = 2 * ((len - i - 1) as u64);
        let extracted = (kmer >> corr) & 3;
        proof {
            lemma_u64_shr_is_div(kmer, corr);
            assert((kmer >> corr) & 3 == (kmer >> corr) % 4) by (bit_vector);
            lemma_code_seq_index(kmer as nat, len as nat, i as nat);
            assert(extracted == cs[i as int]);
        }
        let n = bit2nuc(extracted);
        out.push(n);
        proof {
            assert(out@ =~= nucs_of(cs).take(i as int + 1));
        }
        i = i + 1;
    }
    proof {
        assert(nucs_of(cs).take(len as int) =~= nucs_of(cs));
    }
    out
}

} // verus!
