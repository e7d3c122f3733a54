//! The 8x8 inverse discrete cosine transform, in fixed point.
//!
//! The transform runs as two passes of a one-dimensional transform over the rows of the
//! transposed block. The cosine factors are scaled by 2^20; the first pass keeps three
//! fractional bits, and each pass rounds to nearest.
use vstd::prelude::*;

verus! {

/// `cos_table()[8 * n + k]` is 2^20 * a(k) * cos((2n + 1) k pi / 16), rounded, with
/// a(0) = 1/sqrt(2) and a(k) = 1 otherwise.
pub open spec fn cos_table() -> Seq<int> {
    seq![
        741455, 1028428, 968758, 871859, 741455, 582558, 401273, 204567,
        741455, 871859, 401273, -204567, -741455, -1028428, -968758, -582558,
        741455, 582558, -401273, -1028428, -741455, 204567, 968758, 871859,
        741455, 204567, -968758, -582558, 741455, 871859, -401273, -1028428,
        741455, -204567, -968758, 582558, 741455, -871859, -401273, 1028428,
        741455, -582558, -401273, 1028428, -741455, -204567, 968758, -871859,
        741455, -871859, 401273, 204567, -741455, 1028428, -968758, 582558,
        741455, -1028428, 968758, -871859, 741455, -582558, 401273, -204567,
    ]
}

/// The cosine table.
fn cos_table_int() -> (r: [i64; 64])
    ensures
        forall|i: int| 0 <= i < 64 ==> #[trigger] r@[i] as int == cos_table()[i],
{
    let r: [i64; 64] = [
        741455, 1028428, 968758, 871859, 741455, 582558, 401273, 204567,
        741455, 871859, 401273, -204567, -741455, -1028428, -968758, -582558,
        741455, 582558, -401273, -1028428, -741455, 204567, 968758, 871859,
        741455, 204567, -968758, -582558, 741455, 871859, -401273, -1028428,
        741455, -204567, -968758, 582558, 741455, -871859, -401273, 1028428,
        741455, -582558, -401273, 1028428, -741455, -204567, 968758, -871859,
        741455, -871859, 401273, 204567, -741455, 1028428, -968758, 582558,
        741455, -1028428, 968758, -871859, 741455, -582558, 401273, -204567,
    ];
    assert(r@ =~= cos_table().map_values(|x: int| x as i64));
    r
}

/// The entries of the cosine table are below 2^20 in magnitude.
proof fn lemma_cos_table_bound()
    ensures
        cos_table().len() == 64,
        forall|i: int| 0 <= i < 64 ==> -1048576 <= #[trigger] cos_table()[i] <= 1048576,
{
}

/// The block with rows and columns exchanged.
pub open spec fn transposed(m: Seq<i64>) -> Seq<i64> {
    Seq::new(64, |k: int| m[(k % 8) * 8 + k / 8])
}

/// Writes the transpose of `inm` to `outm`.
pub fn transpose8x8(inm: &[i64; 64], outm: &mut [i64; 64])
    ensures
        final(outm)@ == transposed(inm@),
{
    let mut i: usize = 0;
    while i < 8
        invariant
            i <= 8,
            outm@.len() == 64,
            forall|k: int| 0 <= k < 64 && k / 8 < i ==> #[trigger] outm@[k] == inm@[(k % 8) * 8 + k / 8],
        decreases 8 - i,
    {
        let mut j: usize = 0;
        while j < 8
            invariant
                i < 8,
                j <= 8,
                outm@.len() == 64,
                forall|k: int|
                    0 <= k < 64 && (k / 8 < i || (k / 8 == i && k % 8 < j)) ==> #[trigger] outm@[k]
                        == inm@[(k % 8) * 8 + k / 8],
            decreases 8 - j,
        {
            outm[i * 8 + j] = inm[j * 8 + i];
            j = j + 1;
        }
        i = i + 1;
    }
    assert(outm@ =~= transposed(inm@));
}

/// The sum over `k` below `kk` of `v[8 * row + k] * cos_table()[8 * n + k]`.
pub open spec fn dot_prefix(v: Seq<i64>, row: int, n: int, kk: int) -> int
    decreases kk,
{
    if kk <= 0 {
        0
    } else {
        dot_prefix(v, row, n, kk - 1) + v[8 * row + kk - 1] * cos_table()[8 * n + kk - 1]
    }
}

/// Rounds a sum of one pass to nearest: the first pass divides by 2^18, keeping three
/// fractional bits; the last by 2^24, dropping them and the table's scale.
pub open spec fn round_pass(x: int, last: bool) -> int {
    if last {
        (x + 8388608) / 16777216
    } else {
        (x + 131072) / 262144
    }
}

/// One pass of the one-dimensional transform over each row of `m`.
pub open spec fn pass_spec(m: Seq<i64>, last: bool) -> Seq<i64> {
    Seq::new(64, |j: int| round_pass(dot_prefix(m, j / 8, j % 8, 8), last) as i64)
}

/// The fixed-point inverse transform of a block of coefficients in natural order: the first
/// pass over the columns, the second over the rows.
pub open spec fn idct_spec(m: Seq<i32>) -> Seq<i64> {
    pass_spec(transposed(pass_spec(transposed(m.map_values(|x: i32| x as i64)), false)), true)
}

/// Every entry of `m` lies within `b` of zero.
pub open spec fn bounded(m: Seq<i64>, b: int) -> bool {
    m.len() == 64 && forall|i: int| 0 <= i < 64 ==> -b <= #[trigger] m[i] <= b
}

proof fn lemma_dot_bound(v: Seq<i64>, row: int, n: int, kk: int, b: int)
    requires
        bounded(v, b),
        0 <= row < 8,
        0 <= n < 8,
        0 <= kk <= 8,
    ensures
        -kk * b * 1048576 <= dot_prefix(v, row, n, kk) <= kk * b * 1048576,
    decreases kk,
{
    lemma_cos_table_bound();
    if kk > 0 {
        lemma_dot_bound(v, row, n, kk - 1, b);
        let x = v[8 * row + kk - 1] as int;
        let t = cos_table()[8 * n + kk - 1];
        assert(-b * 1048576 <= x * t <= b * 1048576) by (nonlinear_arith)
            requires
                -b <= x <= b,
                -1048576 <= t <= 1048576,
        ;
        assert((kk - 1) * b * 1048576 + b * 1048576 == kk * b * 1048576) by (nonlinear_arith);
        assert(-(kk - 1) * b * 1048576 - b * 1048576 == -kk * b * 1048576) by (nonlinear_arith);
    } else {
        assert(kk * b * 1048576 == 0) by (nonlinear_arith)
            requires
                kk == 0,
        ;
        assert(-kk * b * 1048576 == 0) by (nonlinear_arith)
            requires
                kk == 0,
        ;
    }
}

/// Runs one pass of the one-dimensional transform on row `row` of `m`, into the same row of
/// `out`.
pub fn idct_1d(m: &[i64; 64], row: usize, last: bool, out: &mut [i64; 64])
    requires
        row < 8,
        bounded(m@, if last { 0x20_0000_0000int } else { 0x8000_0000int }),
    ensures
        final(out)@.len() == 64,
        forall|j: int|
            0 <= j < 64 && j / 8 != row ==> #[trigger] final(out)@[j] == old(out)@[j],
        forall|j: int|
            0 <= j < 64 && j / 8 == row ==> #[trigger] final(out)@[j] as int == round_pass(
                dot_prefix(m@, row as int, j % 8, 8),
                last,
            ),
        forall|j: int| 0 <= j < 64 && j / 8 == row ==> -0x20_0000_0000 <= #[trigger] final(out)@[j] <= 0x20_0000_0000,
{
    let ghost b: int = if last { 0x20_0000_0000int } else { 0x8000_0000int };
    let table = cos_table_int();
    let mut n: usize = 0;
    while n < 8
        invariant
            row < 8,
            n <= 8,
            bounded(m@, b),
            b == if last { 0x20_0000_0000int } else { 0x8000_0000int },
            forall|i: int| 0 <= i < 64 ==> #[trigger] table@[i] as int == cos_table()[i],
            out@.len() == 64,
            forall|j: int|
                0 <= j < 64 && (j / 8 != row || j % 8 >= n) ==> #[trigger] out@[j] == old(out)@[j],
            forall|j: int|
                0 <= j < 64 && j / 8 == row && j % 8 < n ==> #[trigger] out@[j] as int == round_pass(
                    dot_prefix(m@, row as int, j % 8, 8),
                    last,
                ),
            forall|j: int| 0 <= j < 64 && j / 8 == row && j % 8 < n ==> -0x20_0000_0000 <= #[trigger] out@[j] <= 0x20_0000_0000,
        decreases 8 - n,
    {
        let mut sum: i64 = 0;
        let mut k: usize = 0;
        while k < 8
            invariant
                row < 8,
                n < 8,
                k <= 8,
                bounded(m@, b),
                b == if last { 0x20_0000_0000int } else { 0x8000_0000int },
                forall|i: int| 0 <= i < 64 ==> #[trigger] table@[i] as int == cos_table()[i],
                sum as int == dot_prefix(m@, row as int, n as int, k as int),
            decreases 8 - k,
        {
            proof {
                lemma_dot_bound(m@, row as int, n as int, k as int, b);
                lemma_dot_bound(m@, row as int, n as int, (k + 1) as int, b);
                lemma_cos_table_bound();
                let x = m@[8 * row + k] as int;
                let t = cos_table()[8 * n + k];
                assert(-b * 1048576 <= x * t <= b * 1048576) by (nonlinear_arith)
                    requires
                        -b <= x <= b,
                        -1048576 <= t <= 1048576,
                ;
            }
            sum = sum + m[8 * row + k] * table[8 * n + k];
            k = k + 1;
        }
        proof {
            lemma_dot_bound(m@, row as int, n as int, 8, b);
        }
        let v: i64 = if last {
            let x: i64 = sum + 8388608;
            proof {
                assert((x >> 24u64) as int == x as int / 16777216) by (bit_vector)
                    requires
                        -0x1100_0000_0000_0000 <= x <= 0x1100_0000_0000_0000,
                ;
            }
            x >> 24u64
        } else {
            let x: i64 = sum + 131072;
            proof {
                assert((x >> 18u64) as int == x as int / 262144) by (bit_vector)
                    requires
                        -0x41_0000_0000_0000 <= x <= 0x41_0000_0000_0000,
                ;
            }
            x >> 18u64
        };
        proof {
            let j = 8 * row + n;
            assert(j / 8 == row && j % 8 == n);
        }
        out[8 * row + n] = v;
        n = n + 1;
    }
}

/// Writes the fixed-point inverse transform of the dequantized coefficient block `m_in`
/// (natural order) to `m_out`.
pub fn idct(m_in: &[i32; 64], m_out: &mut [i64; 64])
    ensures
        final(m_out)@ == idct_spec(m_in@),
        bounded(final(m_out)@, 0x20_0000_0000int),
{
    let mut wide: [i64; 64] = [0; 64];
    let mut i: usize = 0;
    while i < 64
        invariant
            i <= 64,
            wide@.len() == 64,
            forall|j: int| 0 <= j < i ==> #[trigger] wide@[j] == m_in@[j] as i64,
        decreases 64 - i,
    {
        wide[i] = m_in[i] as i64;
        i = i + 1;
    }
    assert(wide@ =~= m_in@.map_values(|x: i32| x as i64));
    let mut t: [i64; 64] = [0; 64];
    transpose8x8(&wide, &mut t);
    let mut p1: [i64; 64] = [0; 64];
    let mut row: usize = 0;
    while row < 8
        invariant
            row <= 8,
            bounded(t@, 0x8000_0000int),
            t@ == transposed(m_in@.map_values(|x: i32| x as i64)),
            p1@.len() == 64,
            forall|j: int| 0 <= j < 64 && j / 8 < row ==> #[trigger] p1@[j] == pass_spec(t@, false)[j],
            forall|j: int| 0 <= j < 64 && j / 8 < row ==> -0x20_0000_0000 <= #[trigger] p1@[j] <= 0x20_0000_0000,
        decreases 8 - row,
    {
        idct_1d(&t, row, false, &mut p1);
        row = row + 1;
    }
    assert(p1@ =~= pass_spec(t@, false));
    transpose8x8(&p1, &mut t);
    row = 0;
    while row < 8
        invariant
            row <= 8,
            bounded(t@, 0x20_0000_0000int),
            t@ == transposed(pass_spec(transposed(m_in@.map_values(|x: i32| x as i64)), false)),
            m_out@.len() == 64,
            forall|j: int| 0 <= j < 64 && j / 8 < row ==> #[trigger] m_out@[j] == pass_spec(t@, true)[j],
            forall|j: int| 0 <= j < 64 && j / 8 < row ==> -0x20_0000_0000 <= #[trigger] m_out@[j] <= 0x20_0000_0000,
        decreases 8 - row,
    {
        idct_1d(&t, row, true, m_out);
        row = row + 1;
    }
    assert(m_out@ =~= pass_spec(t@, true));
}

} // verus!
