//! Decoding of one 8x8 block of coefficients: DC difference, run-length coded AC
//! coefficients, dequantization and the inverse zig-zag scan.
use vstd::prelude::*;

use crate::bitstream::{bits_value, BitReader};
use crate::ec::{decode_sym, extend, sign_code, HuffmanTree};
use crate::error::{eof, DecodeError, IoError};

verus! {

/// `zigzag_order()[i]`: the natural (row-major) position of the coefficient at position `i` of
/// the stream.
pub open spec fn zigzag_order() -> Seq<int> {
    seq![
        0, 1, 8, 16, 9, 2, 3, 10,
        17, 24, 32, 25, 18, 11, 4, 5,
        12, 19, 26, 33, 40, 48, 41, 34,
        27, 20, 13, 6, 7, 14, 21, 28,
        35, 42, 49, 56, 57, 50, 43, 36,
        29, 22, 15, 23, 30, 37, 44, 51,
        58, 59, 52, 45, 38, 31, 39, 46,
        53, 60, 61, 54, 47, 55, 62, 63,
    ]
}

/// `zigzag_decode_order()[j]`: the stream position of the coefficient at natural position `j`.
pub open spec fn zigzag_decode_order() -> Seq<int> {
    seq![
        0, 1, 5, 6, 14, 15, 27, 28,
        2, 4, 7, 13, 16, 26, 29, 42,
        3, 8, 12, 17, 25, 30, 41, 43,
        9, 11, 18, 24, 31, 40, 44, 53,
        10, 19, 23, 32, 39, 45, 52, 54,
        20, 22, 33, 38, 46, 51, 55, 60,
        21, 34, 37, 47, 50, 56, 59, 61,
        35, 36, 48, 49, 57, 58, 62, 63,
    ]
}

/// The two zig-zag tables are inverse permutations of 0..64: following one and then the other
/// gives back every position.
pub proof fn lemma_zigzag_round_trip()
    ensures
        zigzag_order().len() == 64,
        zigzag_decode_order().len() == 64,
        forall|i: int| 0 <= i < 64 ==> 0 <= #[trigger] zigzag_order()[i] < 64,
        forall|i: int| 0 <= i < 64 ==> 0 <= #[trigger] zigzag_decode_order()[i] < 64,
        forall|i: int| 0 <= i < 64 ==> zigzag_order()[#[trigger] zigzag_decode_order()[i]] == i,
        forall|i: int| 0 <= i < 64 ==> zigzag_decode_order()[#[trigger] zigzag_order()[i]] == i,
{
}

/// The inverse zig-zag table.
fn zigzag_decode_table() -> (r: [usize; 64])
    ensures
        forall|i: int| 0 <= i < 64 ==> #[trigger] r@[i] as int == zigzag_decode_order()[i],
{
    let r: [usize; 64] = [
        0, 1, 5, 6, 14, 15, 27, 28,
        2, 4, 7, 13, 16, 26, 29, 42,
        3, 8, 12, 17, 25, 30, 41, 43,
        9, 11, 18, 24, 31, 40, 44, 53,
        10, 19, 23, 32, 39, 45, 52, 54,
        20, 22, 33, 38, 46, 51, 55, 60,
        21, 34, 37, 47, 50, 56, 59, 61,
        35, 36, 48, 49, 57, 58, 62, 63,
    ];
    assert(r@ =~= zigzag_decode_order().map_values(|x: int| x as usize));
    r
}

/// The block in natural order from the block in stream order.
pub open spec fn descanned(c: Seq<i32>) -> Seq<i32> {
    Seq::new(64, |i: int| c[zigzag_decode_order()[i]])
}

/// Reorders a block from stream (zig-zag) order to natural order.
pub fn zigzag_descan(coeffs: &[i32; 64]) -> (r: [i32; 64])
    ensures
        r@ == descanned(coeffs@),
{
    let table = zigzag_decode_table();
    let mut new: [i32; 64] = [0; 64];
    let mut i: usize = 0;
    while i < 64
        invariant
            i <= 64,
            new@.len() == 64,
            forall|k: int| 0 <= k < 64 ==> #[trigger] table@[k] as int == zigzag_decode_order()[k],
            forall|k: int| 0 <= k < i ==> #[trigger] new@[k] == coeffs@[zigzag_decode_order()[k]],
        decreases 64 - i,
    {
        proof {
            lemma_zigzag_round_trip();
        }
        new[i] = coeffs[table[i]];
        i = i + 1;
    }
    assert(new@ =~= descanned(coeffs@));
    new
}

/// Multiplies each coefficient by the entry of the quantization table at the same position
/// (both in stream order).
pub fn dequantize(coeffs: &mut [i32; 64], quant_matrix: &[u16; 64])
    requires
        forall|i: int| 0 <= i < 64 ==> -32768 <= #[trigger] old(coeffs)@[i] <= 32767,
    ensures
        final(coeffs)@.len() == 64,
        forall|i: int|
            0 <= i < 64 ==> #[trigger] final(coeffs)@[i] as int == old(coeffs)@[i] as int
                * quant_matrix@[i] as int,
{
    let mut i: usize = 0;
    while i < 64
        invariant
            i <= 64,
            coeffs@.len() == 64,
            forall|k: int| 0 <= k < i ==> #[trigger] coeffs@[k] as int == old(coeffs)@[k] as int * quant_matrix@[k] as int,
            forall|k: int| i <= k < 64 ==> #[trigger] coeffs@[k] == old(coeffs)@[k],
            forall|k: int| 0 <= k < 64 ==> -32768 <= #[trigger] old(coeffs)@[k] <= 32767,
        decreases 64 - i,
    {
        let c = coeffs[i];
        let q = quant_matrix[i];
        proof {
            assert(-2147483648 <= c as int * q as int <= 2147483647) by (nonlinear_arith)
                requires
                    -32768 <= c <= 32767,
                    0 <= q <= 65535,
            ;
        }
        coeffs[i] = c * q as i32;
        i = i + 1;
    }
}

/// The coefficients in stream order multiplied by the quantization table.
pub open spec fn dequantized(c: Seq<i32>, q: Seq<u16>) -> Seq<i32> {
    Seq::new(64, |i: int| (c[i] * q[i]) as i32)
}

/// Decoding the AC coefficients of a block from bit `p` of `bytes`, with positions before
/// `idx` done and coefficients `c` so far: the coefficients, the bit position after the block,
/// and the position reached (at most 64).
pub open spec fn ac_spec(
    ac: (Seq<u8>, Seq<u8>),
    bytes: Seq<u8>,
    p: int,
    idx: int,
    c: Seq<i32>,
) -> Result<
    (Seq<i32>, int, int),
    DecodeError,
>
    decreases 64 - idx,
{
    if idx >= 64 {
        Ok((c, p, idx))
    } else {
        match decode_sym(ac.0, ac.1, bytes, p) {
            Err(e) => Err(e),
            Ok((sym, len)) => {
                let run = sym as int / 16;
                let size = (sym as int % 16) as nat;
                if sym == 0 {
                    Ok((c, p + len, idx))
                } else if idx + run > 63 {
                    Err(DecodeError::InvalidCoefficient)
                } else if p + len + size > 8 * bytes.len() {
                    Err(eof())
                } else {
                    ac_spec(
                        ac,
                        bytes,
                        p + len + size,
                        idx + run + 1,
                        c.update(idx + run, extend(size, bits_value(bytes, p + len, size) as int) as i32),
                    )
                }
            },
        }
    }
}

/// Decoding the AC coefficients of a block, for any bits and any table, ends at a position of
/// at most 64: at EOB, after runs that reach the last position, or when all 64 are filled.
pub proof fn lemma_ac_ends_in_block(
    ac: (Seq<u8>, Seq<u8>),
    bytes: Seq<u8>,
    p: int,
    idx: int,
    c: Seq<i32>,
)
    requires
        idx <= 64,
    ensures
        ac_spec(ac, bytes, p, idx, c) is Ok ==> ac_spec(ac, bytes, p, idx, c)->Ok_0.2 <= 64,
    decreases 64 - idx,
{
    if idx < 64 {
        match decode_sym(ac.0, ac.1, bytes, p) {
            Ok((sym, len)) => {
                let run = sym as int / 16;
                let size = (sym as int % 16) as nat;
                if sym != 0 && idx + run <= 63 && p + len + size <= 8 * bytes.len() {
                    lemma_ac_ends_in_block(
                        ac,
                        bytes,
                        p + len + size,
                        idx + run + 1,
                        c.update(idx + run, extend(size, bits_value(bytes, p + len, size) as int) as i32),
                    );
                }
            },
            Err(_) => {},
        }
    }
}

/// Decoding the DC coefficient of a block from bit `p` of `bytes`, with predictor `pred`: the
/// coefficient and the bit position after it.
pub open spec fn dc_spec(dc: (Seq<u8>, Seq<u8>), bytes: Seq<u8>, p: int, pred: int) -> Result<
    (int, int),
    DecodeError,
> {
    match decode_sym(dc.0, dc.1, bytes, p) {
        Err(e) => Err(e),
        Ok((size, len)) => {
            if size > 16 {
                Err(DecodeError::InvalidCoefficient)
            } else if p + len + size > 8 * bytes.len() {
                Err(eof())
            } else {
                let v = pred + extend(size as nat, bits_value(bytes, p + len, size as nat) as int);
                if v < -32768 || v > 32767 {
                    Err(DecodeError::InvalidCoefficient)
                } else {
                    Ok((v, p + len + size))
                }
            }
        },
    }
}

/// The block in stream order that holds only the DC coefficient `v`.
pub open spec fn dc_only(v: int) -> Seq<i32> {
    Seq::new(64, |i: int| if i == 0 { v as i32 } else { 0i32 })
}

/// Decoding a whole block from bit `p` of `bytes`: its dequantized coefficients in natural
/// order, the bit position after it, and the new DC predictor.
pub open spec fn block_spec(
    dc: (Seq<u8>, Seq<u8>),
    ac: (Seq<u8>, Seq<u8>),
    q: Seq<u16>,
    bytes: Seq<u8>,
    p: int,
    pred: int,
) -> Result<(Seq<i32>, int, int), DecodeError> {
    match dc_spec(dc, bytes, p, pred) {
        Err(e) => Err(e),
        Ok((v, p1)) => match ac_spec(ac, bytes, p1, 1, dc_only(v)) {
            Err(e) => Err(e),
            Ok((c, p2, _)) => Ok((descanned(dequantized(c, q)), p2, v)),
        },
    }
}

/// A value coded in at most 15 bits fits in 16 signed bits.
proof fn lemma_extend_bound(size: nat, bits: int)
    requires
        size <= 16,
        0 <= bits < vstd::arithmetic::power2::pow2(size),
    ensures
        -65535 <= extend(size, bits) <= 65535,
        size <= 15 ==> -32767 <= extend(size, bits) <= 32767,
{
    vstd::arithmetic::power2::lemma2_to64();
    if size > 0 {
        vstd::arithmetic::power2::lemma_pow2_adds((size - 1) as nat, 1);
        if size < 16 {
            vstd::arithmetic::power2::lemma_pow2_strictly_increases(size, 16);
        }
        if size < 15 {
            vstd::arithmetic::power2::lemma_pow2_strictly_increases(size, 15);
        }
    }
}

/// Decodes the AC coefficients of a block into `coeffs` (stream order), from position 1 on.
/// Returns the position reached, which is at most 64.
pub fn decode_ac(
    ac: &HuffmanTree,
    reader: &mut BitReader,
    data: &[u8],
    coeffs: &mut [i32; 64],
) -> (r: Result<usize, DecodeError>)
    requires
        ac.wf(),
        old(reader).wf(data@),
        forall|i: int| 0 <= i < 64 ==> -32768 <= #[trigger] old(coeffs)@[i] <= 32767,
    ensures
        final(reader).wf(data@),
        final(reader).start() == old(reader).start(),
        forall|i: int| 0 <= i < 64 ==> -32768 <= #[trigger] final(coeffs)@[i] <= 32767,
        match ac_spec(
            (ac.counts(), ac.symbols()),
            old(reader).stream(data@),
            old(reader).consumed(),
            1,
            old(coeffs)@,
        ) {
            Ok((c, p, idx)) => r == Ok::<usize, DecodeError>(idx as usize) && final(coeffs)@ == c
                && final(reader).consumed() == p,
            Err(e) => r == Err::<usize, DecodeError>(e),
        },
        r is Ok ==> r->Ok_0 <= 64,
{
    let ghost s = old(reader).stream(data@);
    let mut idx: usize = 1;
    while idx < 64
        invariant
            ac.wf(),
            reader.wf(data@),
            reader.start() == old(reader).start(),
            s == reader.stream(data@),
            s == old(reader).stream(data@),
            1 <= idx <= 64,
            coeffs@.len() == 64,
            forall|i: int| 0 <= i < 64 ==> -32768 <= #[trigger] coeffs@[i] <= 32767,
            ac_spec((ac.counts(), ac.symbols()), s, old(reader).consumed(), 1, old(coeffs)@)
                == ac_spec(
                (ac.counts(), ac.symbols()),
                s,
                reader.consumed(),
                idx as int,
                coeffs@,
            ),
        decreases 64 - idx,
    {
        let ghost p = reader.consumed();
        let ghost c = coeffs@;
        let sym = match ac.read_code(reader, data) {
            Ok(sym) => sym,
            Err(e) => {
                return Err(e);
            },
        };
        let ghost len = reader.consumed() - p;
        proof {
            assert(ac.decode_spec(s, p) == Ok::<(u8, nat), DecodeError>((sym, len as nat)));
        }
        if sym == 0 {
            return Ok(idx);
        }
        let run = (sym / 16) as usize;
        let size = (sym % 16) as u32;
        if idx + run > 63 {
            return Err(DecodeError::InvalidCoefficient);
        }
        let bits = match reader.get_n_bits(data, size) {
            Some(b) => b,
            None => {
                return Err(DecodeError::Io(IoError::UnexpectedEof));
            },
        };
        proof {
            crate::bitstream::lemma_bits_value_bound(s, p + len, size as nat);
            vstd::arithmetic::power2::lemma2_to64();
            vstd::arithmetic::power2::lemma_pow2_strictly_increases(size as nat, 16);
            assert(bits as nat == bits_value(s, p + len, size as nat));
            lemma_extend_bound(size as nat, bits as int);
        }
        let v = sign_code(size, bits);
        coeffs[idx + run] = v;
        idx = idx + run + 1;
        proof {
            assert(bits as nat == bits_value(s, p + len, size as nat));
            assert(coeffs@ == c.update(idx - 1, extend(size as nat, bits_value(s, p + len, size as nat) as int) as i32));
            assert(reader.consumed() == p + len + size);
            assert(ac_spec((ac.counts(), ac.symbols()), s, p, (idx - run - 1) as int, c) == ac_spec(
                (ac.counts(), ac.symbols()),
                s,
                reader.consumed(),
                idx as int,
                coeffs@,
            ));
        }
    }
    Ok(idx)
}

/// Decodes one block: the DC difference with table `dc_table`, added to the predictor
/// `*dc_pred` (which then holds the new DC coefficient), the AC coefficients with table
/// `ac_table`, then dequantization with `quant_matrix` and the inverse zig-zag scan. Returns the
/// coefficients in natural order.
pub fn decode_matrix(
    dc_table: &HuffmanTree,
    ac_table: &HuffmanTree,
    quant_matrix: &[u16; 64],
    reader: &mut BitReader,
    data: &[u8],
    dc_pred: &mut i32,
) -> (r: Result<[i32; 64], DecodeError>)
    requires
        dc_table.wf(),
        ac_table.wf(),
        old(reader).wf(data@),
        -32768 <= *old(dc_pred) <= 32767,
    ensures
        final(reader).wf(data@),
        final(reader).start() == old(reader).start(),
        -32768 <= *final(dc_pred) <= 32767,
        match block_spec(
            (dc_table.counts(), dc_table.symbols()),
            (ac_table.counts(), ac_table.symbols()),
            quant_matrix@,
            old(reader).stream(data@),
            old(reader).consumed(),
            *old(dc_pred) as int,
        ) {
            Ok((m, p, v)) => r is Ok && r->Ok_0@ == m && final(reader).consumed() == p
                && *final(dc_pred) == v,
            Err(e) => r == Err::<[i32; 64], DecodeError>(e),
        },
{
    let ghost s = old(reader).stream(data@);
    let ghost p0 = old(reader).consumed();
    let size = match dc_table.read_code(reader, data) {
        Ok(sym) => sym,
        Err(e) => {
            return Err(e);
        },
    };
    if size > 16 {
        return Err(DecodeError::InvalidCoefficient);
    }
    let bits = match reader.get_n_bits(data, size as u32) {
        Some(b) => b,
        None => {
            return Err(DecodeError::Io(IoError::UnexpectedEof));
        },
    };
    proof {
        let len = reader.consumed() - size - p0;
        assert(dc_table.decode_spec(s, p0) == Ok::<(u8, nat), DecodeError>((size, len as nat)));
        crate::bitstream::lemma_bits_value_bound(s, p0 + len, size as nat);
        vstd::arithmetic::power2::lemma2_to64();
        if size < 16 {
            vstd::arithmetic::power2::lemma_pow2_strictly_increases(size as nat, 16);
        }
        assert(bits as nat == bits_value(s, p0 + len, size as nat));
        lemma_extend_bound(size as nat, bits as int);
    }
    let dc = *dc_pred + sign_code(size as u32, bits);
    if dc < -32768 || dc > 32767 {
        return Err(DecodeError::InvalidCoefficient);
    }
    *dc_pred = dc;
    let mut block: [i32; 64] = [0; 64];
    block[0] = dc;
    proof {
        assert(block@ =~= dc_only(dc as int));
    }
    match decode_ac(ac_table, reader, data, &mut block) {
        Ok(_) => {},
        Err(e) => {
            return Err(e);
        },
    }
    let ghost c = block@;
    dequantize(&mut block, quant_matrix);
    proof {
        assert(block@ =~= dequantized(c, quant_matrix@));
    }
    Ok(zigzag_descan(&block))
}

} // verus!
