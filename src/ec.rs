//! Entropy coding: canonical Huffman tables and the sign extension of coefficient bits.
use vstd::prelude::*;
use vstd::arithmetic::power2::{pow2, lemma_pow2_pos, lemma_pow2_adds, lemma2_to64};
use vstd::bits::lemma_u32_shl_is_mul;

use crate::bitstream::{bits_value, lemma_bits_value_bound, lemma_bits_value_split, BitReader};
use crate::error::{eof, DecodeError, IoError};

verus! {

/// The first code of length `l` in the canonical code with length counts `counts`
/// (`counts[i]` codes of length `i + 1`): 0 for length 1, and on each step to the next length
/// the code after the last one, shifted left by one.
pub open spec fn first_code(counts: Seq<u8>, l: nat) -> nat
    decreases l,
{
    if l <= 1 {
        0
    } else {
        2 * (first_code(counts, (l - 1) as nat) + counts[l - 2] as nat)
    }
}

/// How many codes are shorter than `l`: the index of the first symbol of length `l`.
pub open spec fn first_index(counts: Seq<u8>, l: nat) -> nat
    decreases l,
{
    if l <= 1 {
        0
    } else {
        first_index(counts, (l - 1) as nat) + counts[l - 2] as nat
    }
}

/// `v` is a code of length `l`.
pub open spec fn code_matches(counts: Seq<u8>, l: nat, v: nat) -> bool {
    first_code(counts, l) <= v < first_code(counts, l) + counts[l - 1] as nat
}

/// Index in the symbol list of the symbol whose code is `v`, of length `l`.
pub open spec fn symbol_index(counts: Seq<u8>, l: nat, v: nat) -> int {
    first_index(counts, l) + v - first_code(counts, l)
}

/// The codes of every length fit in that many bits.
pub open spec fn codes_fit(counts: Seq<u8>) -> bool {
    forall|l: nat|
        1 <= l <= 16 ==> #[trigger] first_code(counts, l) + counts[l - 1] as nat <= pow2(l)
}

/// A length-count list of 16 entries that defines a canonical prefix code of at most 256
/// symbols.
pub open spec fn valid_counts(counts: Seq<u8>) -> bool {
    &&& counts.len() == 16
    &&& first_index(counts, 17) <= 256
    &&& codes_fit(counts)
}

/// Decoding one symbol from bit `p` of `bytes`, having tried the lengths below `l`: the symbol
/// and the length of its code, `InvalidHuffmanCode` when no code of up to 16 bits matches, or
/// the end-of-input error when the bits run out first.
pub open spec fn decode_from(
    counts: Seq<u8>,
    symbols: Seq<u8>,
    bytes: Seq<u8>,
    p: int,
    l: nat,
) -> Result<(u8, nat), DecodeError>
    decreases 17 - l,
{
    if l > 16 || l == 0 {
        Err(DecodeError::InvalidHuffmanCode)
    } else if p + l > 8 * bytes.len() {
        Err(eof())
    } else if code_matches(counts, l, bits_value(bytes, p, l)) {
        Ok((symbols[symbol_index(counts, l, bits_value(bytes, p, l))], l))
    } else {
        decode_from(counts, symbols, bytes, p, l + 1)
    }
}

/// Decoding one symbol from bit `p` of `bytes` with the table of length counts `counts` and
/// symbols `symbols`: a table with no symbols is refused before any bit is read.
pub open spec fn decode_sym(counts: Seq<u8>, symbols: Seq<u8>, bytes: Seq<u8>, p: int) -> Result<
    (u8, nat),
    DecodeError,
> {
    if symbols.len() == 0 {
        Err(DecodeError::InvalidHuffmanCode)
    } else {
        decode_from(counts, symbols, bytes, p, 1)
    }
}

/// A canonical Huffman table.
pub struct HuffmanTree {
    /// `counts[i]` codes have length `i + 1`.
    counts: Vec<u8>,
    /// The symbols in code order.
    symbols: Vec<u8>,
    /// `first_code[i]`: the first code of length `i + 1`.
    first_code: Vec<u32>,
    /// `first_index[i]`: the index of the first symbol of length `i + 1`.
    first_index: Vec<u32>,
}

impl HuffmanTree {
    /// The length counts.
    pub closed spec fn counts(&self) -> Seq<u8> {
        self.counts@
    }

    /// The symbols in code order.
    pub closed spec fn symbols(&self) -> Seq<u8> {
        self.symbols@
    }

    /// The table is well formed: valid counts, one symbol per code.
    pub closed spec fn wf(&self) -> bool {
        &&& valid_counts(self.counts@)
        &&& self.symbols@.len() == first_index(self.counts@, 17)
        &&& self.first_code@.len() == 16
        &&& self.first_index@.len() == 16
        &&& forall|i: int|
            0 <= i < 16 ==> #[trigger] self.first_code@[i] as nat == first_code(
                self.counts@,
                (i + 1) as nat,
            ) && self.first_index@[i] as nat == first_index(self.counts@, (i + 1) as nat)
    }

    /// What decoding one symbol from bit `p` of `bytes` gives.
    pub open spec fn decode_spec(&self, bytes: Seq<u8>, p: int) -> Result<(u8, nat), DecodeError> {
        decode_sym(self.counts(), self.symbols(), bytes, p)
    }

    /// The table with no codes: every decode with it fails.
    pub fn new() -> (r: Self)
        ensures
            r.wf(),
            r.counts() == Seq::new(16, |i: int| 0u8),
            r.symbols().len() == 0,
    {
        let mut counts: Vec<u8> = Vec::new();
        let mut fcs: Vec<u32> = Vec::new();
        let mut fis: Vec<u32> = Vec::new();
        let mut i: usize = 0;
        while i < 16
            invariant
                i <= 16,
                counts@ == Seq::new(i as nat, |j: int| 0u8),
                fcs@ == Seq::new(i as nat, |j: int| 0u32),
                fis@ == Seq::new(i as nat, |j: int| 0u32),
            decreases 16 - i,
        {
            counts.push(0);
            fcs.push(0);
            fis.push(0);
            i = i + 1;
            proof {
                assert(counts@ =~= Seq::new(i as nat, |j: int| 0u8));
                assert(fcs@ =~= Seq::new(i as nat, |j: int| 0u32));
                assert(fis@ =~= Seq::new(i as nat, |j: int| 0u32));
            }
        }
        proof {
            lemma_zero_counts_valid(counts@);
            assert forall|i: int| 0 <= i < 16 implies #[trigger] fcs@[i] as nat
                == first_code(counts@, (i + 1) as nat) && fis@[i] as nat == first_index(
                counts@,
                (i + 1) as nat,
            ) by {
                lemma_zero_counts_prefix(counts@, (i + 1) as nat);
            }
        }
        HuffmanTree { counts, symbols: Vec::new(), first_code: fcs, first_index: fis }
    }

    /// The table for length counts `counts` and symbols `symbols` (in code order), or
    /// `MalformedSegment` unless the counts define a canonical prefix code of at most 256 codes
    /// and there is one symbol per code.
    pub fn build(counts: Vec<u8>, symbols: Vec<u8>) -> (r: Result<HuffmanTree, DecodeError>)
        requires
            counts@.len() == 16,
        ensures
            r is Ok <==> valid_counts(counts@) && symbols@.len() == first_index(counts@, 17),
            match r {
                Ok(t) => t.wf() && t.counts() == counts@ && t.symbols() == symbols@,
                Err(e) => e == DecodeError::MalformedSegment,
            },
    {
        let mut fcs: Vec<u32> = Vec::new();
        let mut fis: Vec<u32> = Vec::new();
        let mut code: u32 = 0;
        let mut index: u32 = 0;
        let mut i: usize = 0;
        while i < 16
            invariant
                counts@.len() == 16,
                i <= 16,
                fcs@.len() == i,
                fis@.len() == i,
                forall|j: int|
                    0 <= j < i ==> #[trigger] fcs@[j] as nat == first_code(
                        counts@,
                        (j + 1) as nat,
                    ) && fis@[j] as nat == first_index(counts@, (j + 1) as nat),
                code as nat == first_code(counts@, (i + 1) as nat),
                index as nat == first_index(counts@, (i + 1) as nat),
                code <= pow2((i + 1) as nat),
                index <= 255 * i,
                forall|l: nat|
                    1 <= l <= i ==> #[trigger] first_code(counts@, l) + counts@[l - 1] as nat
                        <= pow2(l),
            decreases 16 - i,
        {
            fcs.push(code);
            fis.push(index);
            let cnt = counts[i] as u32;
            let shift: u32 = (i + 1) as u32;
            proof {
                vstd::bits::lemma_u32_pow2_no_overflow(shift as nat);
                lemma_u32_shl_is_mul(1, shift);
                lemma_pow2_adds((i + 1) as nat, 1);
                lemma2_to64();
                vstd::arithmetic::power2::lemma_pow2_strictly_increases((i + 1) as nat, 17);
            }
            let limit: u32 = 1u32 << shift;
            if code + cnt > limit {
                proof {
                    assert(!codes_fit(counts@)) by {
                        assert(first_code(counts@, (i + 1) as nat) + counts@[i as int] as nat
                            > pow2((i + 1) as nat));
                    }
                }
                return Err(DecodeError::MalformedSegment);
            }
            let ghost old_fcs = fcs@;
            let ghost old_fis = fis@;
            code = 2 * (code + cnt);
            index = index + cnt;
            i = i + 1;
            proof {
                assert forall|j: int| 0 <= j < i implies #[trigger] fcs@[j] as nat == first_code(
                    counts@,
                    (j + 1) as nat,
                ) && fis@[j] as nat == first_index(counts@, (j + 1) as nat) by {
                    if j < i - 1 {
                        assert(fcs@[j] == old_fcs[j]);
                        assert(fis@[j] == old_fis[j]);
                    }
                }
                assert forall|l: nat| 1 <= l <= i implies #[trigger] first_code(counts@, l)
                    + counts@[l - 1] as nat <= pow2(l) by {
                    if l < i {
                    } else {
                        assert(l == i);
                    }
                }
            }
        }
        if index > 256 || index as usize != symbols.len() {
            return Err(DecodeError::MalformedSegment);
        }
        Ok(HuffmanTree { counts, symbols, first_code: fcs, first_index: fis })
    }

    /// Decodes the next symbol from `reader`, reading one bit at a time until the bits read are
    /// a code. Fails with `InvalidHuffmanCode` when 16 bits match no code, and with the
    /// end-of-input error when the segment ends first.
    pub fn read_code(&self, reader: &mut BitReader, data: &[u8]) -> (r: Result<u8, DecodeError>)
        requires
            self.wf(),
            old(reader).wf(data@),
        ensures
            final(reader).wf(data@),
            final(reader).start() == old(reader).start(),
            match self.decode_spec(old(reader).stream(data@), old(reader).consumed()) {
                Ok((sym, len)) => r == Ok::<u8, DecodeError>(sym) && final(reader).consumed()
                    == old(reader).consumed() + len,
                Err(e) => r == Err::<u8, DecodeError>(e),
            },
            self.symbols().len() == 0 ==> final(reader).consumed() == old(reader).consumed(),
    {
        if self.symbols.len() == 0 {
            return Err(DecodeError::InvalidHuffmanCode);
        }
        let ghost s = old(reader).stream(data@);
        let ghost c0 = old(reader).consumed();
        let mut code: u32 = 0;
        let mut l: usize = 1;
        proof {
            lemma2_to64();
        }
        while l <= 16
            invariant
                self.wf(),
                self.symbols().len() > 0,
                reader.wf(data@),
                reader.start() == old(reader).start(),
                s == reader.stream(data@),
                c0 == old(reader).consumed(),
                s == old(reader).stream(data@),
                1 <= l <= 17,
                reader.consumed() == c0 + l - 1,
                code as nat == bits_value(s, c0, (l - 1) as nat),
                code < pow2((l - 1) as nat),
                decode_from(self.counts(), self.symbols(), s, c0, 1) == decode_from(
                    self.counts(),
                    self.symbols(),
                    s,
                    c0,
                    l as nat,
                ),
            decreases 17 - l,
        {
            let bit = match reader.get_bit(data) {
                Some(b) => b,
                None => {
                    return Err(DecodeError::Io(IoError::UnexpectedEof));
                },
            };
            proof {
                lemma_pow2_adds((l - 1) as nat, 1);
                lemma2_to64();
                vstd::arithmetic::power2::lemma_pow2_strictly_increases(l as nat, 17);
                assert((l - 1) as nat + 1 == l as nat);
                assert(c0 + (l as nat) - 1 == c0 + (l - 1));
            }
            code = 2 * code + if bit {
                1u32
            } else {
                0u32
            };
            let fc = self.first_code[l - 1];
            let cnt = self.counts[l - 1] as u32;
            proof {
                assert(self.first_code@[l - 1] as nat == first_code(self.counts@, l as nat));
            }
            if code >= fc && code - fc < cnt {
                proof {
                    lemma_first_index_grows(self.counts@, l as nat, 17);
                    assert(self.first_index@[l - 1] as nat == first_index(self.counts@, l as nat));
                }
                let idx = self.first_index[l - 1] + (code - fc);
                return Ok(self.symbols[idx as usize]);
            }
            l = l + 1;
        }
        Err(DecodeError::InvalidHuffmanCode)
    }
}

/// The index of the first symbol of a length does not drop as the length grows.
proof fn lemma_first_index_grows(counts: Seq<u8>, l: nat, m: nat)
    requires
        1 <= l < m,
    ensures
        first_index(counts, l) + counts[l - 1] as nat <= first_index(counts, m),
    decreases m,
{
    if m > l + 1 {
        lemma_first_index_grows(counts, l, (m - 1) as nat);
    }
}

/// The value of a coefficient coded in `size` bits as `bits`: `bits` itself when its top bit
/// is set, else `bits - (2^size - 1)`; zero for size 0.
pub open spec fn extend(size: nat, bits: int) -> int {
    if size == 0 {
        0
    } else if bits >= pow2((size - 1) as nat) {
        bits
    } else {
        bits - (pow2(size) - 1)
    }
}

/// Sign-extends the `n_bits`-bit value `code` read for a coefficient.
pub fn sign_code(n_bits: u32, code: u16) -> (r: i32)
    requires
        n_bits <= 16,
        code < pow2(n_bits as nat),
    ensures
        r == extend(n_bits as nat, code as int),
        1 <= n_bits ==> (r == if code >= pow2((n_bits - 1) as nat) {
            code as int
        } else {
            code - (pow2(n_bits as nat) - 1)
        }),
{
    if n_bits == 0 {
        return 0;
    }
    proof {
        vstd::bits::lemma_u32_pow2_no_overflow(n_bits as nat);
        vstd::bits::lemma_u32_pow2_no_overflow((n_bits - 1) as nat);
        lemma_u32_shl_is_mul(1, n_bits);
        lemma_u32_shl_is_mul(1, (n_bits - 1) as u32);
        lemma2_to64();
        if n_bits < 16 {
            vstd::arithmetic::power2::lemma_pow2_strictly_increases(n_bits as nat, 16);
        }
    }
    let half: u32 = 1u32 << (n_bits - 1);
    let full: u32 = 1u32 << n_bits;
    if code as u32 >= half {
        code as i32
    } else {
        code as i32 - (full as i32 - 1)
    }
}

/// The first code of a longer length lies past every code of length `l`, shifted to that
/// length.
proof fn lemma_first_code_grows(counts: Seq<u8>, l: nat, m: nat)
    requires
        1 <= l < m,
    ensures
        first_code(counts, m) >= (first_code(counts, l) + counts[l - 1] as nat) * pow2(
            (m - l) as nat,
        ),
    decreases m,
{
    lemma2_to64();
    if m == l + 1 {
        assert((m - l) as nat == 1);
    } else {
        lemma_first_code_grows(counts, l, (m - 1) as nat);
        lemma_pow2_adds((m - 1 - l) as nat, 1);
        assert((m - l) as nat == (m - 1 - l) as nat + 1);
        let x = (first_code(counts, l) + counts[l - 1] as nat) as int;
        let q = pow2((m - 1 - l) as nat) as int;
        let f = first_code(counts, (m - 1) as nat) as int;
        assert(2 * (f + counts[m - 2] as int) >= x * (q * 2)) by (nonlinear_arith)
            requires
                f >= x * q,
                counts[m - 2] >= 0,
        ;
    }
}

/// A table decodes the code of each of its symbols: where the `l` bits from bit `p` of `bytes`
/// are the canonical code of the symbol at index `k` (a code of length `l`), decoding from `p`
/// gives that symbol and consumes exactly `l` bits.
pub proof fn lemma_decode_own_code(
    counts: Seq<u8>,
    symbols: Seq<u8>,
    bytes: Seq<u8>,
    p: int,
    l: nat,
    k: int,
)
    requires
        valid_counts(counts),
        symbols.len() == first_index(counts, 17),
        1 <= l <= 16,
        first_index(counts, l) <= k < first_index(counts, l) + counts[l - 1] as nat,
        p + l <= 8 * bytes.len(),
        bits_value(bytes, p, l) == first_code(counts, l) + (k - first_index(counts, l)),
    ensures
        decode_sym(counts, symbols, bytes, p) == Ok::<(u8, nat), DecodeError>((symbols[k], l)),
{
    lemma_first_index_grows(counts, l, 17);
    lemma_decode_own_code_from(counts, symbols, bytes, p, l, k, 1);
}

proof fn lemma_decode_own_code_from(
    counts: Seq<u8>,
    symbols: Seq<u8>,
    bytes: Seq<u8>,
    p: int,
    l: nat,
    k: int,
    j: nat,
)
    requires
        valid_counts(counts),
        1 <= l <= 16,
        1 <= j <= l,
        first_index(counts, l) <= k < first_index(counts, l) + counts[l - 1] as nat,
        p + l <= 8 * bytes.len(),
        bits_value(bytes, p, l) == first_code(counts, l) + (k - first_index(counts, l)),
    ensures
        decode_from(counts, symbols, bytes, p, j) == Ok::<(u8, nat), DecodeError>((symbols[k], l)),
    decreases l - j,
{
    if j < l {
        lemma_decode_own_code_from(counts, symbols, bytes, p, l, k, j + 1);
        let d = (l - j) as nat;
        lemma_bits_value_split(bytes, p, j, d);
        lemma_bits_value_bound(bytes, p + j, d);
        lemma_first_code_grows(counts, j, l);
        assert(j + d == l);
        let v = bits_value(bytes, p, j) as int;
        let x = (first_code(counts, j) + counts[j - 1] as nat) as int;
        let q = pow2(d) as int;
        let rest = bits_value(bytes, p + j, d) as int;
        assert(v >= x) by (nonlinear_arith)
            requires
                v * q + rest >= x * q,
                0 <= rest < q,
        ;
        assert(!code_matches(counts, j, bits_value(bytes, p, j)));
    }
}

/// A list of zero counts is valid, with no symbols.
proof fn lemma_zero_counts_valid(counts: Seq<u8>)
    requires
        counts == Seq::new(16, |i: int| 0u8),
    ensures
        valid_counts(counts),
        first_index(counts, 17) == 0,
{
    assert forall|l: nat| 1 <= l <= 17 implies #[trigger] first_index(counts, l) == 0
        && first_code(counts, l) == 0 by {
        lemma_zero_counts_prefix(counts, l);
    }
    assert forall|l: nat| 1 <= l <= 16 implies #[trigger] first_code(counts, l)
        + counts[l - 1] as nat <= pow2(l) by {
        lemma_zero_counts_prefix(counts, l);
        lemma_pow2_pos(l);
    }
}

proof fn lemma_zero_counts_prefix(counts: Seq<u8>, l: nat)
    requires
        counts == Seq::new(16, |i: int| 0u8),
        l <= 17,
    ensures
        first_index(counts, l) == 0,
        first_code(counts, l) == 0,
    decreases l,
{
    if l > 1 {
        lemma_zero_counts_prefix(counts, (l - 1) as nat);
    }
}

} // verus!
