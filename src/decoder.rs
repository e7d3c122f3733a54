//! The decoder: marker walk, scan decoding and raster assembly.
use vstd::prelude::*;

use crate::bitstream::{be16_at, destuffed, find_scan_end, read_u16, scan_end, BitReader};
use crate::block::{block_spec, decode_matrix};
use crate::color::{blue, block_samples, green, red, samples_spec, ycbcr_to_rgb};
use crate::ec::{first_index, HuffmanTree};
use crate::error::{eof, DecodeError, IoError};
use crate::markers::{marker_of, JpegMarker};
use crate::segments::{
    app0_ok,
    check_app0,
    dqt_spec,
    sof_error,
    sos_error,
    defs_view,
    dht_from,
    dht_spec,
    parse_dht,
    parse_dqt,
    parse_sof,
    parse_sos,
    table_views,
    Component,
    FrameHeader,
    HuffmanDef,
    ScanHeader,
};

verus! {

/// A decoded image: `channels` bytes per pixel (1 for grayscale, 3 for RGB), rows top to
/// bottom, pixels left to right, tightly packed.
pub struct Raster {
    pub width: usize,
    pub height: usize,
    pub channels: usize,
    pub pixels: Vec<u8>,
}

impl Raster {
    /// The pixel buffer holds exactly the image.
    pub open spec fn wf(&self) -> bool {
        self.pixels@.len() == self.width * self.height * self.channels
    }
}

/// The quantization and Huffman tables that marker segments define and scans read, each with
/// a flag that says whether a segment has defined it.
pub struct Tables {
    pub quant: Vec<[u16; 64]>,
    pub quant_defined: Vec<bool>,
    pub dc: Vec<HuffmanTree>,
    pub dc_defined: Vec<bool>,
    pub ac: Vec<HuffmanTree>,
    pub ac_defined: Vec<bool>,
}

/// What a table set holds: the quantization tables and the Huffman tables as (length counts,
/// symbols), each with its defined flag.
pub struct TablesModel {
    pub quant: Seq<Seq<u16>>,
    pub quant_defined: Seq<bool>,
    pub dc: Seq<(Seq<u8>, Seq<u8>)>,
    pub dc_defined: Seq<bool>,
    pub ac: Seq<(Seq<u8>, Seq<u8>)>,
    pub ac_defined: Seq<bool>,
}

/// The length counts and symbols of a Huffman table.
pub open spec fn tree_model(t: HuffmanTree) -> (Seq<u8>, Seq<u8>) {
    (t.counts(), t.symbols())
}

impl Tables {
    /// What the tables hold.
    pub open spec fn model(&self) -> TablesModel {
        TablesModel {
            quant: table_views(self.quant@),
            quant_defined: self.quant_defined@,
            dc: self.dc@.map_values(|t: HuffmanTree| tree_model(t)),
            dc_defined: self.dc_defined@,
            ac: self.ac@.map_values(|t: HuffmanTree| tree_model(t)),
            ac_defined: self.ac_defined@,
        }
    }

    /// Four slots of each kind, every Huffman table well formed.
    pub open spec fn wf(&self) -> bool {
        &&& self.quant@.len() == 4
        &&& self.quant_defined@.len() == 4
        &&& self.dc@.len() == 4
        &&& self.dc_defined@.len() == 4
        &&& self.ac@.len() == 4
        &&& self.ac_defined@.len() == 4
        &&& forall|i: int| 0 <= i < 4 ==> (#[trigger] self.dc@[i]).wf()
        &&& forall|i: int| 0 <= i < 4 ==> (#[trigger] self.ac@[i]).wf()
    }

    /// No table defined.
    pub fn new() -> (r: Tables)
        ensures
            r.wf(),
            r.model() == initial_tables(),
            forall|i: int|
                0 <= i < 4 ==> !(#[trigger] r.quant_defined@[i]) && !r.dc_defined@[i]
                    && !r.ac_defined@[i],
    {
        let mut quant: Vec<[u16; 64]> = Vec::new();
        let mut quant_defined: Vec<bool> = Vec::new();
        let mut dc: Vec<HuffmanTree> = Vec::new();
        let mut dc_defined: Vec<bool> = Vec::new();
        let mut ac: Vec<HuffmanTree> = Vec::new();
        let mut ac_defined: Vec<bool> = Vec::new();
        let mut i: usize = 0;
        while i < 4
            invariant
                i <= 4,
                quant@.len() == i,
                quant_defined@.len() == i,
                dc@.len() == i,
                dc_defined@.len() == i,
                ac@.len() == i,
                ac_defined@.len() == i,
                forall|k: int| 0 <= k < i ==> (#[trigger] dc@[k]).wf() && ac@[k].wf(),
                forall|k: int|
                    0 <= k < i ==> (#[trigger] dc@[k]).counts() == Seq::new(16, |j: int| 0u8)
                        && dc@[k].symbols().len() == 0 && ac@[k].counts() == Seq::new(
                        16,
                        |j: int| 0u8,
                    ) && ac@[k].symbols().len() == 0 && quant@[k]@ == Seq::new(64, |j: int| 1u16),
                forall|k: int|
                    0 <= k < i ==> !(#[trigger] quant_defined@[k]) && !dc_defined@[k]
                        && !ac_defined@[k],
            decreases 4 - i,
        {
            let ghost qd0 = quant_defined@;
            let ghost dd0 = dc_defined@;
            let ghost ad0 = ac_defined@;
            quant.push([1u16; 64]);
            quant_defined.push(false);
            dc.push(HuffmanTree::new());
            dc_defined.push(false);
            ac.push(HuffmanTree::new());
            ac_defined.push(false);
            proof {
                assert(quant_defined@ == qd0.push(false));
                assert(dc_defined@ == dd0.push(false));
                assert(ac_defined@ == ad0.push(false));
                assert forall|k: int| 0 <= k < i + 1 implies !(#[trigger] quant_defined@[k])
                    && !dc_defined@[k] && !ac_defined@[k] by {
                    if k < i {
                        assert(quant_defined@[k] == qd0[k]);
                        assert(dc_defined@[k] == dd0[k]);
                        assert(ac_defined@[k] == ad0[k]);
                    }
                }
            }
            i = i + 1;
        }
        proof {
            assert(dc@[0].wf() && dc@[1].wf() && dc@[2].wf() && dc@[3].wf());
            assert(ac@[0].wf() && ac@[1].wf() && ac@[2].wf() && ac@[3].wf());
        }
        let r = Tables { quant, quant_defined, dc, dc_defined, ac, ac_defined };
        proof {
            let m = r.model();
            let i = initial_tables();
            assert(m.quant =~= i.quant) by {
                assert forall|j: int| 0 <= j < 4 implies #[trigger] m.quant[j] =~= i.quant[j] by {
                    assert(r.quant@[j]@ =~= Seq::new(64, |k: int| 1u16));
                }
            }
            assert(m.quant_defined =~= i.quant_defined);
            assert(m.dc_defined =~= i.dc_defined);
            assert(m.ac_defined =~= i.ac_defined);
            assert forall|j: int| 0 <= j < 4 implies #[trigger] r.dc@[j].symbols() =~= Seq::<u8>::empty()
                && r.ac@[j].symbols() =~= Seq::<u8>::empty() by {}
            assert(m.dc =~= i.dc);
            assert(m.ac =~= i.ac);
        }
        r
    }

    /// Installs Huffman table definitions in order; a later one for the same class and
    /// destination replaces an earlier one.
    pub fn install(&mut self, defs: Vec<HuffmanDef>)
        requires
            old(self).wf(),
            forall|j: int| 0 <= j < defs@.len() ==> (#[trigger] defs@[j]).table.wf(),
            forall|j: int|
                0 <= j < defs@.len() ==> (#[trigger] defs@[j]).class <= 1 && defs@[j].id <= 3,
        ensures
            final(self).wf(),
            final(self).quant == old(self).quant,
            final(self).quant_defined == old(self).quant_defined,
            final(self).model() == installed(old(self).model(), defs_view(defs@)),
    {
        let ghost all = defs@;
        let mut defs = defs;
        while defs.len() > 0
            invariant
                self.wf(),
                self.quant == old(self).quant,
                self.quant_defined == old(self).quant_defined,
                forall|j: int| 0 <= j < defs@.len() ==> (#[trigger] defs@[j]).table.wf(),
                forall|j: int|
                    0 <= j < defs@.len() ==> (#[trigger] defs@[j]).class <= 1 && defs@[j].id <= 3,
                installed(old(self).model(), defs_view(all)) == installed(
                    self.model(),
                    defs_view(defs@),
                ),
            decreases defs@.len(),
        {
            let ghost before = defs@;
            let d = defs.remove(0);
            proof {
                assert(d == before[0]);
                assert(defs@ =~= before.skip(1));
                assert forall|j: int| 0 <= j < defs@.len() implies (#[trigger] defs@[j]).table.wf()
                    && defs@[j].class <= 1 && defs@[j].id <= 3 by {
                    assert(defs@[j] == before[j + 1]);
                }
            }
            let id = d.id as usize;
            let ghost before_dc = self.dc@;
            let ghost before_ac = self.ac@;
            let ghost t = d.table;
            let ghost m0 = self.model();
            proof {
                assert(defs_view(before)[0] == (d.class, d.id, t.counts(), t.symbols()));
                assert(defs_view(before).skip(1) =~= defs_view(defs@));
            }
            if d.class == 0 {
                self.dc[id] = d.table;
                self.dc_defined[id] = true;
            } else {
                self.ac[id] = d.table;
                self.ac_defined[id] = true;
            }
            proof {
                assert(before_dc[0].wf() && before_dc[1].wf() && before_dc[2].wf() && before_dc[3].wf());
                assert(before_ac[0].wf() && before_ac[1].wf() && before_ac[2].wf() && before_ac[3].wf());
                assert(self.dc@[0].wf() && self.dc@[1].wf() && self.dc@[2].wf() && self.dc@[3].wf());
                assert(self.ac@[0].wf() && self.ac@[1].wf() && self.ac@[2].wf() && self.ac@[3].wf());
                if d.class == 0 {
                    assert(self.model().dc =~= m0.dc.update(id as int, (t.counts(), t.symbols())));
                    assert(self.model().ac =~= m0.ac);
                } else {
                    assert(self.model().ac =~= m0.ac.update(id as int, (t.counts(), t.symbols())));
                    assert(self.model().dc =~= m0.dc);
                }
            }
        }
    }
}

/// The tables after installing the Huffman table definitions `defs` (class, destination,
/// length counts, symbols) in order.
pub open spec fn installed(t: TablesModel, defs: Seq<(u8, u8, Seq<u8>, Seq<u8>)>) -> TablesModel
    decreases defs.len(),
{
    if defs.len() == 0 {
        t
    } else {
        let (class, id, counts, symbols) = defs[0];
        let next = if class == 0 {
            TablesModel {
                dc: t.dc.update(id as int, (counts, symbols)),
                dc_defined: t.dc_defined.update(id as int, true),
                ..t
            }
        } else {
            TablesModel {
                ac: t.ac.update(id as int, (counts, symbols)),
                ac_defined: t.ac_defined.update(id as int, true),
                ..t
            }
        };
        installed(next, defs.skip(1))
    }
}

/// Row of sample `idx` in the plane of width `w` that starts at `base`.
pub open spec fn row_of(base: int, w: int, idx: int) -> int {
    (idx - base) / w
}

/// Column of sample `idx` in the plane of width `w` that starts at `base`.
pub open spec fn col_of(base: int, w: int, idx: int) -> int {
    (idx - base) % w
}

/// Sample `idx` lies in the plane of width `w` and height `h` that starts at `base`, in the
/// block at block column `bx`, block row `by`, in a row of that block below `rows`, or in row
/// `rows` and a column below `cols`.
pub open spec fn in_block_part(
    base: int,
    w: int,
    h: int,
    bx: int,
    by: int,
    idx: int,
    rows: int,
    cols: int,
) -> bool {
    &&& base <= idx < base + w * h
    &&& row_of(base, w, idx) / 8 == by
    &&& col_of(base, w, idx) / 8 == bx
    &&& (row_of(base, w, idx) % 8 < rows || (row_of(base, w, idx) % 8 == rows && col_of(
        base,
        w,
        idx,
    ) % 8 < cols))
}

/// Position within its block of sample `idx` of the plane of width `w` that starts at `base`.
pub open spec fn pos_in_block(base: int, w: int, idx: int) -> int {
    (row_of(base, w, idx) % 8) * 8 + col_of(base, w, idx) % 8
}

/// A sample of a plane lies at its row and column.
proof fn lemma_coords(base: int, w: int, h: int, idx: int)
    requires
        0 < w,
        base <= idx < base + w * h,
    ensures
        0 <= row_of(base, w, idx) < h,
        0 <= col_of(base, w, idx) < w,
        idx == base + row_of(base, w, idx) * w + col_of(base, w, idx),
{
    let d = idx - base;
    vstd::arithmetic::div_mod::lemma_fundamental_div_mod(d, w);
    vstd::arithmetic::div_mod::lemma_mod_bound(d, w);
    vstd::arithmetic::div_mod::lemma_div_pos_is_pos(d, w);
    let r = d / w;
    let q = d % w;
    assert(r * w == w * r) by (nonlinear_arith);
    if r >= h {
        assert(r * w >= h * w) by (nonlinear_arith)
            requires
                r >= h,
                w > 0,
        ;
        assert(w * h == h * w) by (nonlinear_arith);
    }
}

/// Row `y` and column `x` give back their sample.
proof fn lemma_coords_of(base: int, w: int, y: int, x: int)
    requires
        0 <= y,
        0 <= x < w,
    ensures
        row_of(base, w, base + y * w + x) == y,
        col_of(base, w, base + y * w + x) == x,
{
    vstd::arithmetic::div_mod::lemma_fundamental_div_mod_converse(y * w + x, w, y, x);
}

/// Writes the samples of the block at block column `bx`, block row `by` into the plane of
/// width `w` and height `h` that starts at `base`, leaving out what lies past the image edge.
fn put_block(
    samples: &mut Vec<u8>,
    base: usize,
    w: usize,
    h: usize,
    bx: usize,
    by: usize,
    block: &[u8; 64],
)
    requires
        base + w * h <= old(samples)@.len(),
        base + w * h <= usize::MAX,
        8 * bx < w,
        8 * by < h,
    ensures
        final(samples)@.len() == old(samples)@.len(),
        forall|idx: int|
            0 <= idx < old(samples)@.len() ==> #[trigger] final(samples)@[idx] == if in_block_part(
                base as int,
                w as int,
                h as int,
                bx as int,
                by as int,
                idx,
                8,
                0,
            ) {
                block@[pos_in_block(base as int, w as int, idx)]
            } else {
                old(samples)@[idx]
            },
{
    let mut j: usize = 0;
    while j < 8
        invariant
            base + w * h <= samples@.len(),
            base + w * h <= usize::MAX,
            samples@.len() == old(samples)@.len(),
            8 * bx < w,
            8 * by < h,
            j <= 8,
            forall|idx: int|
                0 <= idx < old(samples)@.len() ==> #[trigger] samples@[idx] == if in_block_part(
                    base as int,
                    w as int,
                    h as int,
                    bx as int,
                    by as int,
                    idx,
                    j as int,
                    0,
                ) {
                    block@[pos_in_block(base as int, w as int, idx)]
                } else {
                    old(samples)@[idx]
                },
        decreases 8 - j,
    {
        let y = 8 * by + j;
        if y < h {
            let mut i: usize = 0;
            while i < 8
                invariant
                    base + w * h <= samples@.len(),
                    base + w * h <= usize::MAX,
                    samples@.len() == old(samples)@.len(),
                    8 * bx < w,
                    8 * by < h,
                    y == 8 * by + j,
                    y < h,
                    j < 8,
                    i <= 8,
                    forall|idx: int|
                        0 <= idx < old(samples)@.len() ==> #[trigger] samples@[idx]
                            == if in_block_part(
                            base as int,
                            w as int,
                            h as int,
                            bx as int,
                            by as int,
                            idx,
                            j as int,
                            i as int,
                        ) {
                            block@[pos_in_block(base as int, w as int, idx)]
                        } else {
                            old(samples)@[idx]
                        },
                decreases 8 - i,
            {
                let x = 8 * bx + i;
                let ghost before = samples@;
                if x < w {
                    proof {
                        assert(y * w <= y * w + x < w * h) by (nonlinear_arith)
                            requires
                                y < h,
                                x < w,
                        ;
                    }
                    let at = base + y * w + x;
                    samples[at] = block[8 * j + i];
                    proof {
                        lemma_coords_of(base as int, w as int, y as int, x as int);
                    }
                }
                proof {
                    assert forall|idx: int| 0 <= idx < old(samples)@.len() implies #[trigger] samples@[idx]
                        == if in_block_part(
                        base as int,
                        w as int,
                        h as int,
                        bx as int,
                        by as int,
                        idx,
                        j as int,
                        i + 1,
                    ) {
                        block@[pos_in_block(base as int, w as int, idx)]
                    } else {
                        old(samples)@[idx]
                    } by {
                        if base <= idx < base + w * h {
                            lemma_coords(base as int, w as int, h as int, idx);
                            let r = row_of(base as int, w as int, idx);
                            let q = col_of(base as int, w as int, idx);
                            if r / 8 == by && q / 8 == bx && r % 8 == j && q % 8 == i {
                                assert(r == y && q == x);
                            }
                        }
                    }
                }
                i = i + 1;
            }
        }
        proof {
            assert forall|idx: int| 0 <= idx < old(samples)@.len() implies #[trigger] samples@[idx]
                == if in_block_part(
                base as int,
                w as int,
                h as int,
                bx as int,
                by as int,
                idx,
                j + 1,
                0,
            ) {
                block@[pos_in_block(base as int, w as int, idx)]
            } else {
                old(samples)@[idx]
            } by {
                if base <= idx < base + w * h {
                    lemma_coords(base as int, w as int, h as int, idx);
                }
            }
        }
        j = j + 1;
    }
}

/// Interleaves three planes of Y, Cb and Cr samples into RGB pixels.
fn to_rgb(samples: &Vec<u8>, plane: usize) -> (r: Vec<u8>)
    requires
        samples@.len() == 3 * plane,
        3 * plane <= usize::MAX,
    ensures
        r@.len() == 3 * plane,
        forall|k: int|
            0 <= k < plane ==> {
                let y = samples@[k] as int;
                let cb = samples@[plane + k] as int;
                let cr = samples@[2 * plane + k] as int;
                &&& #[trigger] r@[3 * k] == red(y, cb, cr)
                &&& r@[3 * k + 1] == green(y, cb, cr)
                &&& r@[3 * k + 2] == blue(y, cb, cr)
            },
{
    let mut out: Vec<u8> = Vec::new();
    let mut k: usize = 0;
    while k < plane
        invariant
            samples@.len() == 3 * plane,
            3 * plane <= usize::MAX,
            k <= plane,
            out@.len() == 3 * k,
            forall|m: int|
                0 <= m < k ==> {
                    let y = samples@[m] as int;
                    let cb = samples@[plane + m] as int;
                    let cr = samples@[2 * plane + m] as int;
                    &&& #[trigger] out@[3 * m] == red(y, cb, cr)
                    &&& out@[3 * m + 1] == green(y, cb, cr)
                    &&& out@[3 * m + 2] == blue(y, cb, cr)
                },
        decreases plane - k,
    {
        let px = ycbcr_to_rgb(samples[k], samples[plane + k], samples[2 * plane + k]);
        let ghost before = out@;
        out.push(px[0]);
        out.push(px[1]);
        out.push(px[2]);
        proof {
            assert forall|m: int| 0 <= m < k + 1 implies {
                let y = samples@[m] as int;
                let cb = samples@[plane + m] as int;
                let cr = samples@[2 * plane + m] as int;
                &&& #[trigger] out@[3 * m] == red(y, cb, cr)
                &&& out@[3 * m + 1] == green(y, cb, cr)
                &&& out@[3 * m + 2] == blue(y, cb, cr)
            } by {
                if m < k {
                    assert(out@[3 * m] == before[3 * m]);
                    assert(out@[3 * m + 1] == before[3 * m + 1]);
                    assert(out@[3 * m + 2] == before[3 * m + 2]);
                }
            }
        }
        k = k + 1;
    }
    out
}

/// Decoding the first `k` blocks of a scan from the data bytes `bytes` (block `k` is
/// component `k % n` of MCU `k / n`, for `n` components): the coefficients of each block, the
/// bit position after them, and the DC predictors.
pub open spec fn blocks_spec(
    t: TablesModel,
    comps: Seq<Component>,
    sdc: Seq<u8>,
    sac: Seq<u8>,
    bytes: Seq<u8>,
    k: nat,
) -> Result<(Seq<Seq<i32>>, int, Seq<int>), DecodeError>
    decreases k,
{
    let n = comps.len();
    if k == 0 {
        Ok((Seq::empty(), 0int, Seq::new(n, |i: int| 0int)))
    } else {
        match blocks_spec(t, comps, sdc, sac, bytes, (k - 1) as nat) {
            Err(e) => Err(e),
            Ok((bl, p, preds)) => {
                let c = (k - 1) as int % n as int;
                match block_spec(
                    t.dc[sdc[c] as int],
                    t.ac[sac[c] as int],
                    t.quant[comps[c].quant as int],
                    bytes,
                    p,
                    preds[c],
                ) {
                    Err(e) => Err(e),
                    Ok((m, p2, v)) => Ok((bl.push(m), p2, preds.update(c, v))),
                }
            },
        }
    }
}

/// Index in the block sequence of the block of component `c` that holds row `y`, column `x`,
/// for `n` components and `bw` blocks per row.
pub open spec fn block_index(n: int, bw: int, c: int, y: int, x: int) -> int {
    ((y / 8) * bw + x / 8) * n + c
}

/// The sample of component `c` at row `y`, column `x`, given the decoded blocks.
pub open spec fn sample_of(bl: Seq<Seq<i32>>, n: int, bw: int, c: int, y: int, x: int) -> u8 {
    samples_spec(bl[block_index(n, bw, c, y, x)])[(y % 8) * 8 + x % 8]
}

/// Every table that the scan's components select is defined.
pub open spec fn tables_ready(t: TablesModel, comps: Seq<Component>, sdc: Seq<u8>, sac: Seq<u8>) -> bool {
    forall|c: int|
        0 <= c < comps.len() ==> #[trigger] t.quant_defined[comps[c].quant as int]
            && t.dc_defined[sdc[c] as int] && t.ac_defined[sac[c] as int]
}

/// The first missing table among the components from `c` on: `MalformedSegment` for a
/// quantization table, `InvalidHuffmanCode` for a Huffman table.
pub open spec fn ready_error(
    t: TablesModel,
    comps: Seq<Component>,
    sdc: Seq<u8>,
    sac: Seq<u8>,
    c: int,
) -> Option<DecodeError>
    decreases comps.len() - c,
{
    if c < 0 || c >= comps.len() {
        None
    } else if !t.quant_defined[comps[c].quant as int] {
        Some(DecodeError::MalformedSegment)
    } else if !t.dc_defined[sdc[c] as int] || !t.ac_defined[sac[c] as int] {
        Some(DecodeError::InvalidHuffmanCode)
    } else {
        ready_error(t, comps, sdc, sac, c + 1)
    }
}

/// The pixels of a raster of `n` components, `w` by `h`, from the decoded blocks: the samples
/// themselves for one component, their conversion to RGB for three.
pub open spec fn pixels_match(pixels: Seq<u8>, bl: Seq<Seq<i32>>, n: int, w: int, h: int) -> bool {
    let bw = (w + 7) / 8;
    forall|y: int, x: int|
        0 <= y < h && 0 <= x < w ==> if n == 1 {
            #[trigger] pixels[y * w + x] == sample_of(bl, 1, bw, 0, y, x)
        } else {
            let yy = sample_of(bl, 3, bw, 0, y, x) as int;
            let cb = sample_of(bl, 3, bw, 1, y, x) as int;
            let cr = sample_of(bl, 3, bw, 2, y, x) as int;
            &&& pixels[3 * (y * w + x)] == red(yy, cb, cr)
            &&& pixels[3 * (y * w + x) + 1] == green(yy, cb, cr)
            &&& pixels[3 * (y * w + x) + 2] == blue(yy, cb, cr)
        }
}

/// Sample `idx` of the planes (`n` planes of `w` by `h`) holds its block's sample once that
/// block, with index below `k`, is decoded, and zero before.
pub open spec fn plane_sample_ok(
    samples: Seq<u8>,
    bl: Seq<Seq<i32>>,
    n: int,
    w: int,
    h: int,
    k: int,
    idx: int,
) -> bool {
    let plane = w * h;
    let c = idx / plane;
    let base = c * plane;
    let y = row_of(base, w, idx);
    let x = col_of(base, w, idx);
    let b = block_index(n, (w + 7) / 8, c, y, x);
    samples[idx] == if b < k {
        samples_spec(bl[b])[pos_in_block(base, w, idx)]
    } else {
        0u8
    }
}

/// Block indices tell their block row, block column and component apart.
proof fn lemma_block_index_unique(a: int, b: int, c: int, a2: int, b2: int, c2: int, bw: int, n: int)
    requires
        0 <= a,
        0 <= a2,
        0 <= b < bw,
        0 <= b2 < bw,
        0 <= c < n,
        0 <= c2 < n,
        (a * bw + b) * n + c == (a2 * bw + b2) * n + c2,
    ensures
        a == a2,
        b == b2,
        c == c2,
{
    let x = (a * bw + b) * n + c;
    vstd::arithmetic::div_mod::lemma_fundamental_div_mod_converse(x, n, a * bw + b, c);
    vstd::arithmetic::div_mod::lemma_fundamental_div_mod_converse(x, n, a2 * bw + b2, c2);
    let q = a * bw + b;
    vstd::arithmetic::div_mod::lemma_fundamental_div_mod_converse(q, bw, a, b);
    vstd::arithmetic::div_mod::lemma_fundamental_div_mod_converse(q, bw, a2, b2);
}

/// Where sample `idx` of plane `c` lies: its plane, row and column.
proof fn lemma_plane_coords(n: int, w: int, h: int, c: int, idx: int)
    requires
        0 < w,
        0 < h,
        0 <= c < n,
        c * (w * h) <= idx < c * (w * h) + w * h,
    ensures
        idx / (w * h) == c,
        0 <= row_of(c * (w * h), w, idx) < h,
        0 <= col_of(c * (w * h), w, idx) < w,
{
    let plane = w * h;
    vstd::arithmetic::mul::lemma_mul_strictly_positive(w, h);
    vstd::arithmetic::div_mod::lemma_fundamental_div_mod_converse(idx, plane, c, idx - c * plane);
    lemma_coords(c * plane, w, h, idx);
}

/// Decodes every block of the scan whose entropy-coded segment starts at `start` into the
/// sample planes (`n` planes of `w` by `h`, in component order), and returns the planes, the
/// reader after the last block, and the decoded blocks.
#[verifier::rlimit(60)]
fn decode_planes(
    data: &[u8],
    start: usize,
    frame: &FrameHeader,
    scan: &ScanHeader,
    tables: &Tables,
    plane: usize,
    size: usize,
) -> (r: Result<(Vec<u8>, BitReader, Ghost<Seq<Seq<i32>>>), DecodeError>)
    requires
        start <= data@.len(),
        frame.wf(),
        scan.wf(frame.components@.len()),
        tables.wf(),
        tables_ready(tables.model(), frame.components@, scan.dc@, scan.ac@),
        plane == frame.width * frame.height,
        size == frame.components@.len() * plane,
    ensures
        ({
            let n = frame.components@.len() as int;
            let w = frame.width as int;
            let h = frame.height as int;
            let nb = (((h + 7) / 8) * ((w + 7) / 8) * n) as nat;
            let res = blocks_spec(tables.model(), frame.components@, scan.dc@, scan.ac@, destuffed(data@, start as int), nb);
            &&& r is Err ==> res == Err::<(Seq<Seq<i32>>, int, Seq<int>), DecodeError>(r->Err_0)
            &&& r is Ok ==> {
                let (samples, reader, bl) = r->Ok_0;
                &&& res is Ok
                &&& res->Ok_0.0 == bl@
                &&& reader.wf(data@)
                &&& reader.start() == start
                &&& samples@.len() == size
                &&& forall|idx: int|
                    0 <= idx < size ==> #[trigger] plane_sample_ok(
                        samples@,
                        bl@,
                        n,
                        w,
                        h,
                        nb as int,
                        idx,
                    )
            }
        }),
{
    let n = frame.components.len();
    let w = frame.width as usize;
    let h = frame.height as usize;
    proof {
        vstd::arithmetic::mul::lemma_mul_strictly_positive(w as int, h as int);
    }
    let mut samples: Vec<u8> = Vec::new();
    let mut k: usize = 0;
    while k < size
        invariant
            k <= size,
            samples@.len() == k,
            forall|m: int| 0 <= m < k ==> #[trigger] samples@[m] == 0,
        decreases size - k,
    {
        samples.push(0);
        k = k + 1;
    }
    let mut preds: Vec<i32> = Vec::new();
    k = 0;
    while k < n
        invariant
            k <= n,
            preds@.len() == k,
            forall|m: int| 0 <= m < k ==> #[trigger] preds@[m] == 0,
        decreases n - k,
    {
        preds.push(0);
        k = k + 1;
    }
    let bw = (w + 7) / 8;
    let bh = (h + 7) / 8;
    let ghost bytes = destuffed(data@, start as int);
    let ghost mut bl: Seq<Seq<i32>> = Seq::empty();
    let ghost mut kk: int = 0;
    let mut reader = BitReader::new(start);
    proof {
        assert(preds@.map_values(|v: i32| v as int) =~= Seq::new(n as nat, |i: int| 0int));
        assert forall|idx: int| 0 <= idx < size implies #[trigger] plane_sample_ok(
            samples@,
            bl,
            n as int,
            w as int,
            h as int,
            0,
            idx,
        ) by {
            let c = idx / (plane as int);
            vstd::arithmetic::div_mod::lemma_div_pos_is_pos(idx, plane as int);
            let base = c * plane;
            vstd::arithmetic::div_mod::lemma_fundamental_div_mod(idx, plane as int);
            vstd::arithmetic::div_mod::lemma_mod_bound(idx, plane as int);
            assert(c < n) by (nonlinear_arith)
                requires
                    idx < n * plane,
                    idx == plane * c + idx % (plane as int),
                    idx % (plane as int) >= 0,
                    plane > 0,
            ;
            assert(c * plane <= idx < c * plane + plane) by (nonlinear_arith)
                requires
                    idx == plane * c + idx % (plane as int),
                    0 <= idx % (plane as int) < plane,
            ;
            lemma_plane_coords(n as int, w as int, h as int, c, idx);
            let y = row_of(base, w as int, idx);
            let x = col_of(base, w as int, idx);
            assert(((y / 8) * bw + x / 8) * n + c >= 0) by (nonlinear_arith)
                requires
                    y >= 0,
                    x >= 0,
                    c >= 0,
                    n > 0,
                    bw > 0,
            ;
        }
    }
    let mut by: usize = 0;
    while by < bh
        invariant
            frame.wf(),
            scan.wf(frame.components@.len()),
            tables.wf(),
            tables_ready(tables.model(), frame.components@, scan.dc@, scan.ac@),
            n == frame.components@.len(),
            w == frame.width,
            h == frame.height,
            plane == w * h,
            plane > 0,
            size == n * plane,
            size <= usize::MAX,
            bw == (w + 7) / 8,
            bh == (h + 7) / 8,
            samples@.len() == size,
            preds@.len() == n,
            forall|m: int| 0 <= m < n ==> -32768 <= #[trigger] preds@[m] <= 32767,
            reader.wf(data@),
            reader.start() == start,
            bytes == reader.stream(data@),
            blocks_spec(tables.model(), frame.components@, scan.dc@, scan.ac@, bytes, kk as nat) == Ok::<
                (Seq<Seq<i32>>, int, Seq<int>),
                DecodeError,
            >((bl, reader.consumed(), preds@.map_values(|v: i32| v as int))),
            bl.len() == kk,
            forall|idx: int|
                0 <= idx < size ==> #[trigger] plane_sample_ok(
                    samples@,
                    bl,
                    n as int,
                    w as int,
                    h as int,
                    kk,
                    idx,
                ),
            by <= bh,
            kk == by * bw * n,
        decreases bh - by,
    {
        let mut bx: usize = 0;
        while bx < bw
            invariant
                frame.wf(),
                scan.wf(frame.components@.len()),
                tables.wf(),
                tables_ready(tables.model(), frame.components@, scan.dc@, scan.ac@),
                n == frame.components@.len(),
                w == frame.width,
                h == frame.height,
                plane == w * h,
                plane > 0,
                size == n * plane,
                size <= usize::MAX,
                bw == (w + 7) / 8,
                bh == (h + 7) / 8,
                samples@.len() == size,
                preds@.len() == n,
                forall|m: int| 0 <= m < n ==> -32768 <= #[trigger] preds@[m] <= 32767,
                reader.wf(data@),
                reader.start() == start,
                bytes == reader.stream(data@),
                blocks_spec(tables.model(), frame.components@, scan.dc@, scan.ac@, bytes, kk as nat) == Ok::<
                    (Seq<Seq<i32>>, int, Seq<int>),
                    DecodeError,
                >((bl, reader.consumed(), preds@.map_values(|v: i32| v as int))),
                bl.len() == kk,
                forall|idx: int|
                    0 <= idx < size ==> #[trigger] plane_sample_ok(
                        samples@,
                        bl,
                        n as int,
                        w as int,
                        h as int,
                        kk,
                        idx,
                    ),
                by < bh,
                bx <= bw,
                kk == (by * bw + bx) * n,
            decreases bw - bx,
        {
            let mut c: usize = 0;
            while c < n
                invariant
                    frame.wf(),
                    scan.wf(frame.components@.len()),
                    tables.wf(),
                    tables_ready(tables.model(), frame.components@, scan.dc@, scan.ac@),
                    n == frame.components@.len(),
                    w == frame.width,
                    h == frame.height,
                    plane == w * h,
                    plane > 0,
                    size == n * plane,
                    size <= usize::MAX,
                    bw == (w + 7) / 8,
                    bh == (h + 7) / 8,
                    samples@.len() == size,
                    preds@.len() == n,
                    forall|m: int| 0 <= m < n ==> -32768 <= #[trigger] preds@[m] <= 32767,
                    reader.wf(data@),
                    reader.start() == start,
                    bytes == reader.stream(data@),
                    blocks_spec(tables.model(), frame.components@, scan.dc@, scan.ac@, bytes, kk as nat) == Ok::<
                        (Seq<Seq<i32>>, int, Seq<int>),
                        DecodeError,
                    >((bl, reader.consumed(), preds@.map_values(|v: i32| v as int))),
                    bl.len() == kk,
                    forall|idx: int|
                        0 <= idx < size ==> #[trigger] plane_sample_ok(
                            samples@,
                            bl,
                            n as int,
                            w as int,
                            h as int,
                            kk,
                            idx,
                        ),
                    by < bh,
                    bx < bw,
                    c <= n,
                    kk == (by * bw + bx) * n + c,
                decreases n - c,
            {
                let comp = frame.components[c];
                let mut pred = preds[c];
                let dc_sel = scan.dc[c] as usize;
                let ac_sel = scan.ac[c] as usize;
                let q = comp.quant as usize;
                proof {
                    assert(tables.dc@[dc_sel as int].wf());
                    assert(tables.ac@[ac_sel as int].wf());
                    vstd::arithmetic::div_mod::lemma_fundamental_div_mod_converse(
                        kk,
                        n as int,
                        (by * bw + bx) as int,
                        c as int,
                    );
                    assert(kk + 1 <= bh * bw * n) by (nonlinear_arith)
                        requires
                            kk == (by * bw + bx) * n + c,
                            by < bh,
                            bx < bw,
                            c < n,
                    ;
                }
                let coeffs = match decode_matrix(
                    &tables.dc[dc_sel],
                    &tables.ac[ac_sel],
                    &tables.quant[q],
                    &mut reader,
                    data,
                    &mut pred,
                ) {
                    Ok(m) => m,
                    Err(e) => {
                        proof {
                            assert(blocks_spec(tables.model(), frame.components@, scan.dc@, scan.ac@, bytes, (kk + 1) as nat)
                                == Err::<(Seq<Seq<i32>>, int, Seq<int>), DecodeError>(e));
                            lemma_blocks_err_stays(
                                tables.model(),
                                frame.components@,
                                scan.dc@,
                                scan.ac@,
                                bytes,
                                (kk + 1) as nat,
                                (bh * bw * n) as nat,
                            );
                        }
                        return Err(e);
                    },
                };
                let ghost old_preds = preds@;
                preds[c] = pred;
                let block = block_samples(&coeffs);
                proof {
                    assert(c * plane + plane <= n * plane) by (nonlinear_arith)
                        requires
                            c < n,
                    ;
                    assert(c * plane <= n * plane) by (nonlinear_arith)
                        requires
                            c < n,
                    ;
                    assert(preds@.map_values(|v: i32| v as int) =~= old_preds.map_values(
                        |v: i32| v as int,
                    ).update(c as int, pred as int));
                    assert(8 * bx < w && 8 * by < h);
                }
                let ghost old_samples = samples@;
                put_block(&mut samples, c * plane, w, h, bx, by, &block);
                proof {
                    let old_bl = bl;
                    bl = bl.push(coeffs@);
                    let old_k = kk;
                    kk = kk + 1;
                    assert forall|idx: int| 0 <= idx < size implies #[trigger] plane_sample_ok(
                        samples@,
                        bl,
                        n as int,
                        w as int,
                        h as int,
                        kk,
                        idx,
                    ) by {
                        assert(plane_sample_ok(
                            old_samples,
                            old_bl,
                            n as int,
                            w as int,
                            h as int,
                            old_k,
                            idx,
                        ));
                        lemma_step_sample(
                            old_samples,
                            samples@,
                            old_bl,
                            coeffs@,
                            block@,
                            n as int,
                            w as int,
                            h as int,
                            bx as int,
                            by as int,
                            c as int,
                            old_k,
                            idx,
                        );
                    }
                }
                c = c + 1;
            }
            proof {
                assert(kk == (by * bw + bx + 1) * n) by (nonlinear_arith)
                    requires
                        kk == (by * bw + bx) * n + n,
                ;
            }
            bx = bx + 1;
        }
        proof {
            assert(kk == (by + 1) * bw * n) by (nonlinear_arith)
                requires
                    kk == (by * bw + bw) * n,
            ;
        }
        by = by + 1;
    }
    Ok((samples, reader, Ghost(bl)))
}

/// The pixels from the sample planes: the plane itself for one component, RGB for three.
fn assemble(
    samples: Vec<u8>,
    n: usize,
    w: usize,
    h: usize,
    plane: usize,
    bl: Ghost<Seq<Seq<i32>>>,
) -> (r: Vec<u8>)
    requires
        n == 1 || n == 3,
        0 < w,
        0 < h,
        plane == w * h,
        samples@.len() == n * plane,
        n * plane <= usize::MAX,
        forall|idx: int|
            0 <= idx < n * plane ==> #[trigger] plane_sample_ok(
                samples@,
                bl@,
                n as int,
                w as int,
                h as int,
                ((h + 7) / 8) * ((w + 7) / 8) * n,
                idx,
            ),
    ensures
        r@.len() == n * plane,
        pixels_match(r@, bl@, n as int, w as int, h as int),
{
    let ghost bw = (w + 7) / 8;
    let ghost bh = (h + 7) / 8;
    proof {
        assert((((h + 7) / 8) * ((w + 7) / 8) * n) == bh * bw * n);
    }
    if n == 1 {
        proof {
            assert forall|y: int, x: int| 0 <= y < h && 0 <= x < w implies #[trigger] samples@[y
                * w + x] == sample_of(bl@, 1, bw as int, 0, y, x) by {
                lemma_pixel_sample(
                    samples@,
                    bl@,
                    1,
                    w as int,
                    h as int,
                    bw as int,
                    bh as int,
                    0,
                    y,
                    x,
                );
            }
        }
        samples
    } else {
        let out = to_rgb(&samples, plane);
        proof {
            assert forall|y: int, x: int| 0 <= y < h && 0 <= x < w implies {
                let yy = sample_of(bl@, 3, bw as int, 0, y, x) as int;
                let cb = sample_of(bl@, 3, bw as int, 1, y, x) as int;
                let cr = sample_of(bl@, 3, bw as int, 2, y, x) as int;
                &&& #[trigger] out@[3 * (y * w + x)] == red(yy, cb, cr)
                &&& out@[3 * (y * w + x) + 1] == green(yy, cb, cr)
                &&& out@[3 * (y * w + x) + 2] == blue(yy, cb, cr)
            } by {
                lemma_pixel_sample(
                    samples@,
                    bl@,
                    3,
                    w as int,
                    h as int,
                    bw as int,
                    bh as int,
                    0,
                    y,
                    x,
                );
                lemma_pixel_sample(
                    samples@,
                    bl@,
                    3,
                    w as int,
                    h as int,
                    bw as int,
                    bh as int,
                    1,
                    y,
                    x,
                );
                lemma_pixel_sample(
                    samples@,
                    bl@,
                    3,
                    w as int,
                    h as int,
                    bw as int,
                    bh as int,
                    2,
                    y,
                    x,
                );
                assert(0 <= y * w + x < plane) by (nonlinear_arith)
                    requires
                        0 <= y < h,
                        0 <= x < w,
                        plane == w * h,
                ;
                let k = y * w + x;
                assert(0 * (w * h) + y * w + x == k);
                assert(1 * (w * h) + y * w + x == plane + k);
                assert(2 * (w * h) + y * w + x == 2 * plane + k);
                let yy = samples@[k] as int;
                let cb = samples@[plane + k] as int;
                let cr = samples@[2 * plane + k] as int;
                assert(out@[3 * k] == red(yy, cb, cr));
                assert(out@[3 * k + 1] == green(yy, cb, cr));
                assert(out@[3 * k + 2] == blue(yy, cb, cr));
            }
        }
        out
    }
}

/// Decodes the entropy-coded segment that starts at `start` for a frame `frame` and a scan
/// `scan`, one MCU after another (left to right, top to bottom; in each, one block per
/// component, in frame order). Returns the raster and the position of the marker that ends
/// the segment (or the end of input).
pub fn decode_scan(
    data: &[u8],
    start: usize,
    frame: &FrameHeader,
    scan: &ScanHeader,
    tables: &Tables,
) -> (r: Result<(Raster, usize), DecodeError>)
    requires
        start <= data@.len(),
        frame.wf(),
        scan.wf(frame.components@.len()),
        tables.wf(),
    ensures
        ({
            let n = frame.components@.len() as int;
            let w = frame.width as int;
            let h = frame.height as int;
            let nb = (((h + 7) / 8) * ((w + 7) / 8) * n) as nat;
            let res = blocks_spec(tables.model(), frame.components@, scan.dc@, scan.ac@, destuffed(data@, start as int), nb);
            let missing = ready_error(tables.model(), frame.components@, scan.dc@, scan.ac@, 0);
            &&& missing is Some ==> r == Err::<(Raster, usize), DecodeError>(missing->Some_0)
            &&& missing is None && w * h * n > usize::MAX ==> r == Err::<
                (Raster, usize),
                DecodeError,
            >(DecodeError::UnsupportedProfile)
            &&& missing is None && w * h * n <= usize::MAX ==> (r is Ok <==> res is Ok)
            &&& missing is None && w * h * n <= usize::MAX && res is Err ==> r == Err::<
                (Raster, usize),
                DecodeError,
            >(res->Err_0)
            &&& r is Ok ==> {
                let (img, end) = r->Ok_0;
                &&& res is Ok
                &&& img.wf()
                &&& img.width == w
                &&& img.height == h
                &&& img.channels == n
                &&& end == scan_end(data@, start as int)
                &&& pixels_match(img.pixels@, res->Ok_0.0, n, w, h)
            }
        }),
{
    let n = frame.components.len();
    let mut c: usize = 0;
    while c < n
        invariant
            frame.wf(),
            scan.wf(frame.components@.len()),
            tables.wf(),
            n == frame.components@.len(),
            c <= n,
            forall|m: int|
                0 <= m < c ==> #[trigger] tables.quant_defined@[frame.components@[m].quant as int]
                    && tables.dc_defined@[scan.dc@[m] as int] && tables.ac_defined@[scan.ac@[m] as int],
            ready_error(tables.model(), frame.components@, scan.dc@, scan.ac@, 0) == ready_error(
                tables.model(),
                frame.components@,
                scan.dc@,
                scan.ac@,
                c as int,
            ),
        decreases n - c,
    {
        if !tables.quant_defined[frame.components[c].quant as usize] {
            return Err(DecodeError::MalformedSegment);
        }
        if !tables.dc_defined[scan.dc[c] as usize] || !tables.ac_defined[scan.ac[c] as usize] {
            return Err(DecodeError::InvalidHuffmanCode);
        }
        let ghost c0 = c as int;
        proof {
            assert(tables.quant_defined@[frame.components@[c0].quant as int]);
            assert(tables.dc_defined@[scan.dc@[c0] as int]);
            assert(tables.ac_defined@[scan.ac@[c0] as int]);
        }
        c = c + 1;
        proof {
            assert forall|m: int| 0 <= m < c implies #[trigger] tables.quant_defined@[frame.components@[m].quant as int]
                && tables.dc_defined@[scan.dc@[m] as int] && tables.ac_defined@[scan.ac@[m] as int] by {
                if m == c0 {
                    assert(tables.quant_defined@[frame.components@[c0].quant as int]);
                    assert(tables.dc_defined@[scan.dc@[c0] as int]);
                    assert(tables.ac_defined@[scan.ac@[c0] as int]);
                } else {
                    assert(m < c0);
                    assert(tables.quant_defined@[frame.components@[m].quant as int]);
                }
            }
        }
    }
    let w = frame.width as usize;
    let h = frame.height as usize;
    proof {
        assert(w * h <= 65535 * 65535) by (nonlinear_arith)
            requires
                w <= 65535,
                h <= 65535,
        ;
        assert(w * h * n <= 65535 * 65535 * 3) by (nonlinear_arith)
            requires
                w * h <= 65535 * 65535,
                n <= 3,
        ;
    }
    let total: u64 = w as u64 * h as u64 * n as u64;
    if total > usize::MAX as u64 {
        return Err(DecodeError::UnsupportedProfile);
    }
    let plane = w * h;
    proof {
        assert(n * plane == w * h * n) by (nonlinear_arith)
            requires
                plane == w * h,
        ;
    }
    let size = n * plane;
    let (samples, reader, bl) = match decode_planes(data, start, frame, scan, tables, plane, size) {
        Ok(x) => x,
        Err(e) => {
            return Err(e);
        },
    };
    let end = reader.end_of_scan(data);
    let pixels = assemble(samples, n, w, h, plane, bl);
    Ok((Raster { width: w, height: h, channels: n, pixels }, end))
}

/// After the block of component `c` at block column `bx`, block row `by` (the block with
/// index `k`) is written to the planes, every sample holds what the blocks decoded so far say.
proof fn lemma_step_sample(
    old_s: Seq<u8>,
    new_s: Seq<u8>,
    old_bl: Seq<Seq<i32>>,
    coeffs: Seq<i32>,
    block: Seq<u8>,
    n: int,
    w: int,
    h: int,
    bx: int,
    by: int,
    c: int,
    k: int,
    idx: int,
)
    requires
        0 < w,
        0 < h,
        0 <= c < n,
        0 <= bx < (w + 7) / 8,
        0 <= by < (h + 7) / 8,
        k == (by * ((w + 7) / 8) + bx) * n + c,
        old_bl.len() == k,
        0 <= idx < n * (w * h),
        plane_sample_ok(old_s, old_bl, n, w, h, k, idx),
        block == samples_spec(coeffs),
        new_s[idx] == if in_block_part(c * (w * h), w, h, bx, by, idx, 8, 0) {
            block[pos_in_block(c * (w * h), w, idx)]
        } else {
            old_s[idx]
        },
    ensures
        plane_sample_ok(new_s, old_bl.push(coeffs), n, w, h, k + 1, idx),
{
    let plane = w * h;
    let bw = (w + 7) / 8;
    vstd::arithmetic::mul::lemma_mul_strictly_positive(w, h);
    let c2 = idx / plane;
    vstd::arithmetic::div_mod::lemma_fundamental_div_mod(idx, plane);
    vstd::arithmetic::div_mod::lemma_mod_bound(idx, plane);
    vstd::arithmetic::div_mod::lemma_div_pos_is_pos(idx, plane);
    assert(c2 < n) by (nonlinear_arith)
        requires
            idx < n * plane,
            idx == plane * c2 + idx % plane,
            idx % plane >= 0,
            plane > 0,
    ;
    assert(c2 * plane <= idx < c2 * plane + plane) by (nonlinear_arith)
        requires
            idx == plane * c2 + idx % plane,
            0 <= idx % plane < plane,
    ;
    lemma_plane_coords(n, w, h, c2, idx);
    let base = c2 * plane;
    let y = row_of(base, w, idx);
    let x = col_of(base, w, idx);
    let b = block_index(n, bw, c2, y, x);
    let new_bl = old_bl.push(coeffs);
    assert(x / 8 < bw);
    assert(y / 8 >= 0 && x / 8 >= 0);
    if in_block_part(c * plane, w, h, bx, by, idx, 8, 0) {
        assert(c * plane <= idx < c * plane + plane);
        vstd::arithmetic::div_mod::lemma_fundamental_div_mod_converse(idx, plane, c, idx - c * plane);
        assert(c2 == c);
        assert(b == k);
        assert(new_bl[k] == coeffs);
    } else {
        if b == k {
            lemma_block_index_unique(y / 8, x / 8, c2, by, bx, c, bw, n);
            assert(false);
        }
        if b < k {
            assert(new_bl[b] == old_bl[b]);
        }
    }
}

/// Once every block is decoded, the sample of component `c` at row `y`, column `x` holds its
/// block's sample.
proof fn lemma_pixel_sample(
    s: Seq<u8>,
    bl: Seq<Seq<i32>>,
    n: int,
    w: int,
    h: int,
    bw: int,
    bh: int,
    c: int,
    y: int,
    x: int,
)
    requires
        0 < w,
        0 < h,
        bw == (w + 7) / 8,
        bh == (h + 7) / 8,
        0 <= c < n,
        0 <= y < h,
        0 <= x < w,
        s.len() == n * (w * h),
        forall|idx: int|
            0 <= idx < n * (w * h) ==> #[trigger] plane_sample_ok(s, bl, n, w, h, bh * bw * n, idx),
    ensures
        s[c * (w * h) + y * w + x] == sample_of(bl, n, bw, c, y, x),
{
    let plane = w * h;
    vstd::arithmetic::mul::lemma_mul_strictly_positive(w, h);
    let idx = c * plane + y * w + x;
    assert(0 <= y * w + x < plane) by (nonlinear_arith)
        requires
            0 <= y < h,
            0 <= x < w,
            plane == w * h,
    ;
    assert(idx < n * plane) by (nonlinear_arith)
        requires
            idx == c * plane + (y * w + x),
            y * w + x < plane,
            c < n,
            plane > 0,
    ;
    assert(c * plane >= 0) by (nonlinear_arith)
        requires
            c >= 0,
            plane >= 0,
    ;
    assert(plane_sample_ok(s, bl, n, w, h, bh * bw * n, idx));
    vstd::arithmetic::div_mod::lemma_fundamental_div_mod_converse(idx, plane, c, y * w + x);
    lemma_coords_of(c * plane, w, y, x);
    assert(idx == c * plane + y * w + x);
    let b = block_index(n, bw, c, y, x);
    assert(y / 8 < bh && x / 8 < bw);
    assert(b < bh * bw * n) by (nonlinear_arith)
        requires
            b == ((y / 8) * bw + x / 8) * n + c,
            0 <= y / 8 < bh,
            0 <= x / 8 < bw,
            0 <= c < n,
    ;
}

/// Once a block fails, the whole scan fails with the same error.
proof fn lemma_blocks_err_stays(
    t: TablesModel,
    comps: Seq<Component>,
    sdc: Seq<u8>,
    sac: Seq<u8>,
    bytes: Seq<u8>,
    k: nat,
    m: nat,
)
    requires
        blocks_spec(t, comps, sdc, sac, bytes, k) is Err,
        k <= m,
    ensures
        blocks_spec(t, comps, sdc, sac, bytes, m) == blocks_spec(t, comps, sdc, sac, bytes, k),
    decreases m - k,
{
    if k < m {
        lemma_blocks_err_stays(t, comps, sdc, sac, bytes, k, (m - 1) as nat);
    }
}

/// Input `d` holds at `m` an SOF0 marker whose segment declares the height, width and
/// component count of `img`.
pub open spec fn sof_declares(d: Seq<u8>, m: int, img: Raster) -> bool {
    &&& 0 <= m
    &&& m + 10 <= d.len()
    &&& be16_at(d, m) == 0xffc0
    &&& img.height == be16_at(d, m + 5)
    &&& img.width == be16_at(d, m + 7)
    &&& img.channels == d[m + 9]
}

/// Some SOF0 segment of input `d` declares the height, width and component count of `img`.
pub open spec fn declared_by_sof(d: Seq<u8>, img: Raster) -> bool {
    exists|m: int| #[trigger] sof_declares(d, m, img)
}

/// Input `d` holds at `m` an SOF0 marker whose segment gave frame `f`.
pub open spec fn frame_at(d: Seq<u8>, m: int, f: FrameHeader) -> bool {
    &&& 0 <= m
    &&& m + 10 <= d.len()
    &&& be16_at(d, m) == 0xffc0
    &&& f.height == be16_at(d, m + 5)
    &&& f.width == be16_at(d, m + 7)
    &&& f.components@.len() == d[m + 9]
}

/// The frame parameters that an SOF0 segment declares.
pub struct FrameModel {
    pub height: int,
    pub width: int,
    pub comps: Seq<Component>,
}

/// The frame that SOF0 payload `p` declares.
pub open spec fn frame_of(p: Seq<u8>) -> FrameModel {
    FrameModel {
        height: be16_at(p, 1),
        width: be16_at(p, 3),
        comps: Seq::new(
            p[5] as nat,
            |c: int| Component { id: p[6 + 3 * c], sampling: p[6 + 3 * c + 1], quant: p[6 + 3 * c + 2] },
        ),
    }
}

/// The model of a parsed frame header.
pub open spec fn frame_model(f: FrameHeader) -> FrameModel {
    FrameModel { height: f.height as int, width: f.width as int, comps: f.components@ }
}

/// What the decode of the scan rests on: the tables in effect at SOS, the frame, the scan's
/// table selectors and where its entropy-coded segment starts.
pub struct ScanPlan {
    pub tables: TablesModel,
    pub frame: FrameModel,
    pub dc: Seq<u8>,
    pub ac: Seq<u8>,
    pub start: int,
}

/// The blocks of the scan that `plan` describes, over input `d`.
pub open spec fn plan_blocks(plan: ScanPlan, d: Seq<u8>) -> Result<
    (Seq<Seq<i32>>, int, Seq<int>),
    DecodeError,
> {
    let w = plan.frame.width;
    let h = plan.frame.height;
    let n = plan.frame.comps.len() as int;
    blocks_spec(
        plan.tables,
        plan.frame.comps,
        plan.dc,
        plan.ac,
        destuffed(d, plan.start),
        (((h + 7) / 8) * ((w + 7) / 8) * n) as nat,
    )
}

/// The decoder's state between segments: the tables, the frame once SOF0 is read, the scan
/// once it is decoded.
pub struct WalkState {
    pub tables: TablesModel,
    pub frame: Option<FrameModel>,
    pub plan: Option<ScanPlan>,
}

/// The tables before any segment: no table defined.
pub open spec fn initial_tables() -> TablesModel {
    TablesModel {
        quant: Seq::new(4, |i: int| Seq::new(64, |k: int| 1u16)),
        quant_defined: Seq::new(4, |i: int| false),
        dc: Seq::new(4, |i: int| (Seq::new(16, |k: int| 0u8), Seq::<u8>::empty())),
        dc_defined: Seq::new(4, |i: int| false),
        ac: Seq::new(4, |i: int| (Seq::new(16, |k: int| 0u8), Seq::<u8>::empty())),
        ac_defined: Seq::new(4, |i: int| false),
    }
}

/// The end of the segments: the scan, if one was decoded.
pub open spec fn finish(st: WalkState) -> Result<ScanPlan, DecodeError> {
    match st.plan {
        Some(plan) => Ok(plan),
        None => Err(eof()),
    }
}

/// The effect of the segment of kind `kind` whose payload is `d[s..e]`: the new state and
/// where the next marker is expected.
#[verifier::opaque]
pub open spec fn segment_step(d: Seq<u8>, kind: JpegMarker, s: int, e: int, st: WalkState) -> Result<
    (WalkState, int),
    DecodeError,
> {
    let p = d.subrange(s, e);
    match kind {
        JpegMarker::ApplicationDefaultHeader => {
            if app0_ok(p) {
                Ok((st, e))
            } else {
                Err(DecodeError::MalformedSegment)
            }
        },
        JpegMarker::DefineQuantizationTable => match dqt_spec(
            p,
            st.tables.quant,
            st.tables.quant_defined,
        ) {
            Ok((q, qd)) => Ok(
                (
                    WalkState {
                        tables: TablesModel { quant: q, quant_defined: qd, ..st.tables },
                        ..st
                    },
                    e,
                ),
            ),
            Err(x) => Err(x),
        },
        JpegMarker::DefineHuffmanTable => match dht_spec(p) {
            Ok(l) => Ok((WalkState { tables: installed(st.tables, l), ..st }, e)),
            Err(x) => Err(x),
        },
        JpegMarker::StartOfFrame => {
            if st.frame is Some {
                Err(DecodeError::UnsupportedProfile)
            } else {
                match sof_error(p) {
                    Some(x) => Err(x),
                    None => Ok((WalkState { frame: Some(frame_of(p)), ..st }, e)),
                }
            }
        },
        JpegMarker::StartOfScan => {
            if st.plan is Some {
                Err(DecodeError::UnsupportedProfile)
            } else {
                match st.frame {
                    None => Err(DecodeError::MalformedSegment),
                    Some(f) => match sos_error(p, f.comps) {
                        Some(x) => Err(x),
                        None => if restart_at(d, scan_end(d, e)) {
                            Err(DecodeError::UnsupportedProfile)
                        } else {
                            let n = f.comps.len();
                            let sdc = Seq::new(n, |c: int| (p[2 + 2 * c] as int / 16) as u8);
                            let sac = Seq::new(n, |c: int| (p[2 + 2 * c] as int % 16) as u8);
                            match ready_error(st.tables, f.comps, sdc, sac, 0) {
                                Some(x) => Err(x),
                                None => {
                                    if f.width * f.height * n > usize::MAX {
                                        Err(DecodeError::UnsupportedProfile)
                                    } else {
                                        let plan = ScanPlan {
                                            tables: st.tables,
                                            frame: f,
                                            dc: sdc,
                                            ac: sac,
                                            start: e,
                                        };
                                        match plan_blocks(plan, d) {
                                            Err(x) => Err(x),
                                            Ok(_) => Ok(
                                                (WalkState { plan: Some(plan), ..st }, scan_end(d, e)),
                                            ),
                                        }
                                    }
                                },
                            }
                        },
                    },
                }
            }
        },
        _ => Ok((st, e)),
    }
}

/// The marker that begins at `i` of `d` is a restart marker (RST0 to RST7).
pub open spec fn restart_at(d: Seq<u8>, i: int) -> bool {
    0 <= i && i + 1 < d.len() && 0xd0 <= d[i + 1] <= 0xd7
}

/// Decoding input `d` from the marker expected at `pos` on, in state `st`: the scan to
/// decode, or the first error.
pub open spec fn walk(d: Seq<u8>, pos: int, st: WalkState) -> Result<ScanPlan, DecodeError>
    decreases d.len() - pos,
{
    if pos < 0 || pos >= d.len() {
        finish(st)
    } else if pos + 2 > d.len() {
        if d[pos] != 0xff {
            Err(DecodeError::InvalidMarker)
        } else {
            Err(eof())
        }
    } else {
        match marker_of(be16_at(d, pos) as u16) {
            None => Err(DecodeError::InvalidMarker),
            Some(kind) => {
                if kind == JpegMarker::StartOfImage {
                    walk(d, pos + 2, st)
                } else if kind == JpegMarker::EndOfImage {
                    finish(st)
                } else if kind == JpegMarker::Restart || kind == JpegMarker::OtherFrame {
                    Err(DecodeError::UnsupportedProfile)
                } else if pos + 4 > d.len() {
                    Err(eof())
                } else {
                    let len = be16_at(d, pos + 2);
                    if len < 2 {
                        if kind == JpegMarker::Other {
                            Err(DecodeError::InvalidMarker)
                        } else {
                            Err(DecodeError::MalformedSegment)
                        }
                    } else if pos + 2 + len > d.len() {
                        Err(eof())
                    } else {
                        match segment_step(d, kind, pos + 4, pos + 2 + len, st) {
                            Err(x) => Err(x),
                            Ok((st2, next)) => {
                                if pos < next <= d.len() {
                                    walk(d, next, st2)
                                } else {
                                    Err(eof())
                                }
                            },
                        }
                    }
                }
            },
        }
    }
}

/// Decoding input `d`: it must begin with SOI.
pub open spec fn walk_top(d: Seq<u8>) -> Result<ScanPlan, DecodeError> {
    if d.len() == 1 && d[0] != 0xff {
        Err(DecodeError::InvalidMarker)
    } else if d.len() < 2 {
        Err(eof())
    } else if be16_at(d, 0) != 0xffd8 {
        Err(DecodeError::InvalidMarker)
    } else {
        walk(d, 2, WalkState { tables: initial_tables(), frame: None, plan: None })
    }
}

/// The walk state of the decoder's tables, frame and decoded scan.
pub open spec fn state_of(tables: Tables, frame: Option<FrameHeader>, plan: Option<ScanPlan>) -> WalkState {
    WalkState {
        tables: tables.model(),
        frame: match frame {
            Some(f) => Some(frame_model(f)),
            None => None,
        },
        plan,
    }
}

/// The raster `img` is the decode of the scan that `plan` describes over input `d`.
pub open spec fn raster_of(img: Raster, plan: ScanPlan, d: Seq<u8>) -> bool {
    let n = plan.frame.comps.len() as int;
    &&& plan_blocks(plan, d) is Ok
    &&& img.wf()
    &&& img.width == plan.frame.width
    &&& img.height == plan.frame.height
    &&& img.channels == n
    &&& pixels_match(img.pixels@, plan_blocks(plan, d)->Ok_0.0, n, plan.frame.width, plan.frame.height)
}

/// The decoder's state between segments.
struct DecodeState {
    tables: Tables,
    frame: Option<FrameHeader>,
    raster: Option<Raster>,
    /// The scan that `raster` decodes.
    plan: Ghost<Option<ScanPlan>>,
    /// Where the SOF0 marker of `frame` is.
    sof_at: Ghost<int>,
}

impl DecodeState {
    /// The state agrees with input `d`.
    spec fn inv(&self, d: Seq<u8>) -> bool {
        &&& self.tables.wf()
        &&& self.frame is Some ==> self.frame->Some_0.wf() && frame_at(
            d,
            self.sof_at@,
            self.frame->Some_0,
        )
        &&& self.raster is Some <==> self.plan@ is Some
        &&& self.raster is Some ==> self.frame is Some && raster_of(
            self.raster->Some_0,
            self.plan@->Some_0,
            d,
        ) && self.plan@->Some_0.frame == frame_model(self.frame->Some_0)
    }

    /// The state as the walk sees it.
    spec fn walk_state(&self) -> WalkState {
        state_of(self.tables, self.frame, self.plan@)
    }

    /// Handles the segment of kind `kind` whose payload is `data[s..e]`; returns where the next
    /// marker is expected.
    #[verifier::rlimit(60)]
    fn apply_segment(&mut self, data: &[u8], kind: JpegMarker, s: usize, e: usize) -> (r: Result<
        usize,
        DecodeError,
    >)
        requires
            old(self).inv(data@),
            4 <= s <= e <= data@.len(),
            marker_of(be16_at(data@, s - 4) as u16) == Some(kind),
        ensures
            match segment_step(data@, kind, s as int, e as int, old(self).walk_state()) {
                Ok((st2, next)) => r == Ok::<usize, DecodeError>(next as usize) && s <= next
                    <= data@.len() && final(self).walk_state() == st2 && final(self).inv(data@),
                Err(x) => r == Err::<usize, DecodeError>(x),
            },
            r is Ok ==> s <= r->Ok_0 <= data@.len(),
    {
        let ghost st = self.walk_state();
        let ghost p = data@.subrange(s as int, e as int);
        proof {
            reveal(segment_step);
        }
        match kind {
            JpegMarker::ApplicationDefaultHeader => {
                match check_app0(data, s, e) {
                    Ok(()) => Ok(e),
                    Err(x) => Err(x),
                }
            },
            JpegMarker::DefineQuantizationTable => {
                match parse_dqt(data, s, e, &mut self.tables.quant, &mut self.tables.quant_defined) {
                    Ok(()) => {
                        proof {
                            let q = dqt_spec(p, st.tables.quant, st.tables.quant_defined)->Ok_0;
                            assert(self.walk_state().tables =~~= TablesModel {
                                quant: q.0,
                                quant_defined: q.1,
                                ..st.tables
                            });
                        }
                        Ok(e)
                    },
                    Err(x) => Err(x),
                }
            },
            JpegMarker::DefineHuffmanTable => {
                let defs = match parse_dht(data, s, e) {
                    Ok(d) => d,
                    Err(x) => {
                        return Err(x);
                    },
                };
                proof {
                    lemma_defs_in_range(p, defs@);
                }
                self.tables.install(defs);
                Ok(e)
            },
            JpegMarker::StartOfFrame => {
                if self.frame.is_some() {
                    return Err(DecodeError::UnsupportedProfile);
                }
                let f = match parse_sof(data, s, e) {
                    Ok(f) => f,
                    Err(x) => {
                        return Err(x);
                    },
                };
                proof {
                    let m = s - 4;
                    assert(p[1] == data@[m + 5] && p[2] == data@[m + 6]);
                    assert(p[3] == data@[m + 7] && p[4] == data@[m + 8]);
                    assert(p[5] == data@[m + 9]);
                    assert(f.components@ =~= frame_of(p).comps);
                }
                self.frame = Some(f);
                self.sof_at = Ghost(s - 4);
                Ok(e)
            },
            JpegMarker::StartOfScan => {
                if self.raster.is_some() {
                    return Err(DecodeError::UnsupportedProfile);
                }
                match &self.frame {
                    None => Err(DecodeError::MalformedSegment),
                    Some(f) => {
                        let scan = match parse_sos(data, s, e, f) {
                            Ok(h) => h,
                            Err(x) => {
                                return Err(x);
                            },
                        };
                        let stop = find_scan_end(data, e);
                        proof {
                            crate::bitstream::lemma_scan_end_bounds(data@, e as int);
                        }
                        if stop < data.len() && data.len() - stop > 1 && 0xd0 <= data[stop + 1]
                            && data[stop + 1] <= 0xd7 {
                            return Err(DecodeError::UnsupportedProfile);
                        }
                        proof {
                            let n = f.components@.len();
                            assert(scan.dc@ =~= Seq::new(
                                n,
                                |c: int| (p[2 + 2 * c] as int / 16) as u8,
                            ));
                            assert(crate::segments::selectors_match(scan, p));
                            assert forall|c: int| 0 <= c < n implies #[trigger] scan.ac@[c] == (p[2
                                + 2 * c] as int % 16) as u8 by {
                                assert(scan.dc@[c] as int == p[2 + 2 * c] as int / 16);
                            }
                            assert(scan.ac@ =~= Seq::new(
                                n,
                                |c: int| (p[2 + 2 * c] as int % 16) as u8,
                            ));
                        }
                        let (img, end) = match decode_scan(data, e, f, &scan, &self.tables) {
                            Ok(x) => x,
                            Err(x) => {
                                return Err(x);
                            },
                        };
                        proof {
                            crate::bitstream::lemma_scan_end_bounds(data@, e as int);
                            self.plan = Ghost(
                                Some(
                                    ScanPlan {
                                        tables: self.tables.model(),
                                        frame: frame_model(*f),
                                        dc: scan.dc@,
                                        ac: scan.ac@,
                                        start: e as int,
                                    },
                                ),
                            );
                        }
                        self.raster = Some(img);
                        Ok(end)
                    },
                }
            },
            _ => Ok(e),
        }
    }
}

/// Decodes a baseline JPEG held in `data`. The input must begin with SOI; segments follow
/// until EOI or the end of input; the frame (SOF0) must come before the scan (SOS), and only
/// one of each is handled. The result is the raster of the one scan.
pub fn decode_bytes(data: &[u8]) -> (r: Result<Raster, DecodeError>)
    ensures
        match walk_top(data@) {
            Ok(plan) => r is Ok && raster_of(r->Ok_0, plan, data@),
            Err(e) => r == Err::<Raster, DecodeError>(e),
        },
        r is Ok ==> declared_by_sof(data@, r->Ok_0),
{
    if data.len() == 1 && data[0] != 0xff {
        return Err(DecodeError::InvalidMarker);
    }
    let mut pos: usize = 0;
    let first = match read_u16(data, &mut pos) {
        Ok(m) => m,
        Err(e) => {
            return Err(e);
        },
    };
    if first != 0xffd8 {
        return Err(DecodeError::InvalidMarker);
    }
    let mut state = DecodeState {
        tables: Tables::new(),
        frame: None,
        raster: None,
        plan: Ghost(None),
        sof_at: Ghost(0),
    };
    let mut done = false;
    while !done && pos < data.len()
        invariant
            2 <= pos <= data@.len(),
            be16_at(data@, 0) == 0xffd8,
            state.inv(data@),
            walk_top(data@) == if done {
                finish(state.walk_state())
            } else {
                walk(data@, pos as int, state.walk_state())
            },
        decreases data@.len() - pos + (if done { 0int } else { 1int }),
    {
        let ghost st = state.walk_state();
        let ghost at = pos as int;
        if data.len() - pos < 2 && data[pos] != 0xff {
            return Err(DecodeError::InvalidMarker);
        }
        let code = match read_u16(data, &mut pos) {
            Ok(m) => m,
            Err(e) => {
                return Err(e);
            },
        };
        let kind = match JpegMarker::from_code(code) {
            Some(k) => k,
            None => {
                return Err(DecodeError::InvalidMarker);
            },
        };
        match kind {
            JpegMarker::StartOfImage => {},
            JpegMarker::EndOfImage => {
                done = true;
            },
            JpegMarker::Restart | JpegMarker::OtherFrame => {
                return Err(DecodeError::UnsupportedProfile);
            },
            _ => {
                let len = match read_u16(data, &mut pos) {
                    Ok(l) => l,
                    Err(e) => {
                        return Err(e);
                    },
                };
                if len < 2 {
                    if kind == JpegMarker::Other {
                        return Err(DecodeError::InvalidMarker);
                    }
                    return Err(DecodeError::MalformedSegment);
                }
                let seg_start = pos;
                if data.len() - pos < (len - 2) as usize {
                    return Err(DecodeError::Io(IoError::UnexpectedEof));
                }
                let seg_end = pos + (len - 2) as usize;
                pos = match state.apply_segment(data, kind, seg_start, seg_end) {
                    Ok(next) => next,
                    Err(e) => {
                        return Err(e);
                    },
                };
                proof {
                    let step = segment_step(data@, kind, seg_start as int, seg_end as int, st);
                    assert(step is Ok);
                    assert(at < pos <= data@.len());
                    assert(be16_at(data@, at) as u16 == code);
                    assert(marker_of(be16_at(data@, at) as u16) == Some(kind));
                    assert(kind != JpegMarker::StartOfImage && kind != JpegMarker::EndOfImage);
                    assert(kind != JpegMarker::Restart && kind != JpegMarker::OtherFrame);
                    assert(0 <= be16_at(data@, at + 2) < 65536);
                    assert(be16_at(data@, at + 2) as u16 == len);
                    assert(be16_at(data@, at + 2) == len as int);
                    assert(seg_start == at + 4 && seg_end == at + 2 + len);
                    assert(step == Ok::<(WalkState, int), DecodeError>((state.walk_state(), pos as int)));
                    assert(walk(data@, at, st) == walk(data@, pos as int, state.walk_state()));
                }
            },
        }
    }
    match state.raster {
        Some(img) => {
            proof {
                assert(sof_declares(data@, state.sof_at@, img));
                assert(declared_by_sof(data@, img));
            }
            Ok(img)
        },
        None => Err(DecodeError::Io(IoError::UnexpectedEof)),
    }
}

/// Every definition of a valid DHT payload has class 0 or 1 and destination 0..=3.
proof fn lemma_defs_in_range(p: Seq<u8>, defs: Seq<HuffmanDef>)
    requires
        dht_spec(p) is Ok,
        defs_view(defs) == dht_spec(p)->Ok_0,
    ensures
        forall|j: int| 0 <= j < defs.len() ==> (#[trigger] defs[j]).class <= 1 && defs[j].id <= 3,
{
    lemma_dht_from_in_range(p, 0);
    assert forall|j: int| 0 <= j < defs.len() implies (#[trigger] defs[j]).class <= 1
        && defs[j].id <= 3 by {
        assert(defs_view(defs)[j] == (defs[j].class, defs[j].id, defs[j].table.counts(), defs[j].table.symbols()));
    }
}

proof fn lemma_dht_from_in_range(p: Seq<u8>, i: int)
    requires
        dht_from(p, i) is Ok,
    ensures
        forall|j: int|
            0 <= j < dht_from(p, i)->Ok_0.len() ==> (#[trigger] dht_from(p, i)->Ok_0[j]).0 <= 1
                && dht_from(p, i)->Ok_0[j].1 <= 3,
    decreases p.len() - i,
{
    if 0 <= i < p.len() {
        let counts = p.subrange(i + 1, i + 17);
        let n = first_index(counts, 17) as int;
        lemma_dht_from_in_range(p, i + 17 + n);
    }
}

/// A decoder over an input held in memory.
pub struct Decoder {
    data: Vec<u8>,
}

impl Decoder {
    /// The input.
    pub closed spec fn input(&self) -> Seq<u8> {
        self.data@
    }

    /// A decoder over the bytes `data`.
    pub fn new(data: Vec<u8>) -> (r: Decoder)
        ensures
            r.input() == data@,
    {
        Decoder { data }
    }

    /// Decodes the input; see `decode_bytes`.
    pub fn decode(&mut self) -> (r: Result<Raster, DecodeError>)
        ensures
            final(self).input() == old(self).input(),
            match walk_top(old(self).input()) {
                Ok(plan) => r is Ok && raster_of(r->Ok_0, plan, old(self).input()),
                Err(e) => r == Err::<Raster, DecodeError>(e),
            },
            r is Ok ==> declared_by_sof(old(self).input(), r->Ok_0),
    {
        decode_bytes(self.data.as_slice())
    }
}

} // verus!
