//! Parsers for the payloads of marker segments. Each takes the input and the bounds
//! `start..end` of one payload (the bytes after the segment's length field).
use vstd::prelude::*;

use crate::bitstream::be16_at;
use crate::ec::{first_index, valid_counts, HuffmanTree};
use crate::error::DecodeError;

verus! {

/// One component of a frame.
#[derive(Clone, Copy, Debug, PartialEq, Eq, Structural)]
pub struct Component {
    /// Component identifier.
    pub id: u8,
    /// Horizontal sampling factor in the high four bits, vertical in the low four.
    pub sampling: u8,
    /// Quantization table selector, 0..=3.
    pub quant: u8,
}

/// The parameters of a baseline frame.
pub struct FrameHeader {
    /// Sample precision in bits; always 8.
    pub precision: u8,
    /// Height in pixels, not zero.
    pub height: u16,
    /// Width in pixels, not zero.
    pub width: u16,
    /// One or three components.
    pub components: Vec<Component>,
}

impl FrameHeader {
    /// The header describes a frame this decoder handles.
    pub open spec fn wf(&self) -> bool {
        &&& self.width > 0
        &&& self.height > 0
        &&& (self.components@.len() == 1 || self.components@.len() == 3)
        &&& forall|c: int| 0 <= c < self.components@.len() ==> (#[trigger] self.components@[c]).quant <= 3
    }
}

/// The table selectors of a scan, one pair per frame component, in frame order.
pub struct ScanHeader {
    /// DC Huffman table selectors, 0..=3.
    pub dc: Vec<u8>,
    /// AC Huffman table selectors, 0..=3.
    pub ac: Vec<u8>,
}

impl ScanHeader {
    /// The header holds valid selectors for `n` components.
    pub open spec fn wf(&self, n: nat) -> bool {
        &&& self.dc@.len() == n
        &&& self.ac@.len() == n
        &&& forall|c: int| 0 <= c < n ==> #[trigger] self.dc@[c] <= 3 && self.ac@[c] <= 3
    }
}

/// Why an SOF0 payload is refused, if it is.
pub open spec fn sof_error(p: Seq<u8>) -> Option<DecodeError> {
    if p.len() < 6 {
        Some(DecodeError::MalformedSegment)
    } else if p[0] != 8 {
        Some(DecodeError::UnsupportedProfile)
    } else if be16_at(p, 1) == 0 || be16_at(p, 3) == 0 {
        Some(DecodeError::MalformedSegment)
    } else if p[5] != 1 && p[5] != 3 {
        Some(DecodeError::MalformedSegment)
    } else if p.len() != 6 + 3 * p[5] {
        Some(DecodeError::MalformedSegment)
    } else if exists|c: int| 0 <= c < p[5] && #[trigger] p[6 + 3 * c + 2] > 3 {
        Some(DecodeError::MalformedSegment)
    } else if p[5] == 3 && exists|c: int| 0 <= c < 3 && #[trigger] p[6 + 3 * c + 1] != 0x11 {
        Some(DecodeError::UnsupportedProfile)
    } else {
        None
    }
}

/// Parses an SOF0 payload: precision 8, height, width (neither zero), one or three components,
/// each with an identifier, sampling factors and a quantization table selector 0..=3. Three
/// components must all have sampling factors 1x1.
pub fn parse_sof(data: &[u8], start: usize, end: usize) -> (r: Result<FrameHeader, DecodeError>)
    requires
        start <= end <= data@.len(),
    ensures
        r is Ok ==> r->Ok_0.wf(),
        ({
            let p = data@.subrange(start as int, end as int);
            &&& r is Err <==> sof_error(p) is Some
            &&& r is Err ==> sof_error(p) == Some(r->Err_0)
            &&& r is Ok ==> {
                let f = r->Ok_0;
                &&& f.precision == 8
                &&& f.height as int == be16_at(p, 1)
                &&& f.width as int == be16_at(p, 3)
                &&& f.components@.len() == p[5] as int
                &&& forall|c: int|
                    0 <= c < p[5] ==> (#[trigger] f.components@[c]).id == p[6 + 3 * c]
                        && f.components@[c].sampling == p[6 + 3 * c + 1]
                        && f.components@[c].quant == p[6 + 3 * c + 2]
            }
        }),
{
    let ghost p = data@.subrange(start as int, end as int);
    let len = end - start;
    if len < 6 {
        return Err(DecodeError::MalformedSegment);
    }
    if data[start] != 8 {
        return Err(DecodeError::UnsupportedProfile);
    }
    let height = data[start + 1] as u16 * 256 + data[start + 2] as u16;
    let width = data[start + 3] as u16 * 256 + data[start + 4] as u16;
    if height == 0 || width == 0 {
        return Err(DecodeError::MalformedSegment);
    }
    let n = data[start + 5];
    if n != 1 && n != 3 {
        return Err(DecodeError::MalformedSegment);
    }
    if len != 6 + 3 * n as usize {
        return Err(DecodeError::MalformedSegment);
    }
    let mut components: Vec<Component> = Vec::new();
    let mut all_full = true;
    let mut c: usize = 0;
    while c < n as usize
        invariant
            start <= end <= data@.len(),
            p == data@.subrange(start as int, end as int),
            len == end - start,
            len == 6 + 3 * n,
            n == p[5],
            n == 1 || n == 3,
            p[0] == 8,
            height as int == be16_at(p, 1),
            width as int == be16_at(p, 3),
            height != 0 && width != 0,
            c <= n,
            components@.len() == c,
            forall|k: int| 0 <= k < c ==> #[trigger] p[6 + 3 * k + 2] <= 3,
            forall|k: int|
                0 <= k < c ==> (#[trigger] components@[k]).id == p[6 + 3 * k]
                    && components@[k].sampling == p[6 + 3 * k + 1] && components@[k].quant == p[6
                    + 3 * k + 2],
            all_full <==> forall|k: int| 0 <= k < c ==> #[trigger] p[6 + 3 * k + 1] == 0x11,
        decreases n - c,
    {
        let id = data[start + 6 + 3 * c];
        let sampling = data[start + 6 + 3 * c + 1];
        let quant = data[start + 6 + 3 * c + 2];
        if quant > 3 {
            proof {
                assert(p[6 + 3 * (c as int) + 2] > 3);
            }
            return Err(DecodeError::MalformedSegment);
        }
        if sampling != 0x11 {
            all_full = false;
        }
        components.push(Component { id, sampling, quant });
        proof {
            assert(p[6 + 3 * (c as int) + 1] == sampling);
        }
        c = c + 1;
    }
    if n == 3 && !all_full {
        return Err(DecodeError::UnsupportedProfile);
    }
    Ok(FrameHeader { precision: 8, height, width, components })
}

/// Why an SOS payload is refused for a frame with components `comps`, if it is.
pub open spec fn sos_error(p: Seq<u8>, comps: Seq<Component>) -> Option<DecodeError> {
    if p.len() < 1 {
        Some(DecodeError::MalformedSegment)
    } else if p[0] != comps.len() {
        Some(DecodeError::UnsupportedProfile)
    } else if p.len() != 1 + 2 * p[0] + 3 {
        Some(DecodeError::MalformedSegment)
    } else if exists|c: int| 0 <= c < p[0] && #[trigger] p[1 + 2 * c] != comps[c].id {
        Some(DecodeError::MalformedSegment)
    } else if exists|c: int|
        0 <= c < p[0] && (#[trigger] p[2 + 2 * c] as int / 16 > 3 || p[2 + 2 * c] as int % 16 > 3) {
        Some(DecodeError::MalformedSegment)
    } else if p[1 + 2 * p[0]] != 0 || p[2 + 2 * p[0]] != 63 || p[3 + 2 * p[0]] != 0 {
        Some(DecodeError::UnsupportedProfile)
    } else {
        None
    }
}

/// The selectors of `h` are those of SOS payload `p`: for each component, the high four bits
/// of its selector byte for DC, the low four for AC.
pub open spec fn selectors_match(h: ScanHeader, p: Seq<u8>) -> bool {
    forall|c: int|
        0 <= c < h.dc@.len() ==> #[trigger] h.dc@[c] as int == p[2 + 2 * c] as int / 16
            && h.ac@[c] as int == p[2 + 2 * c] as int % 16
}

/// Parses an SOS payload for frame `frame`: the scan must declare every frame component, in
/// frame order, each with DC and AC table selectors 0..=3, and the spectral selection and
/// successive approximation of a baseline scan (0, 63, 0).
pub fn parse_sos(data: &[u8], start: usize, end: usize, frame: &FrameHeader) -> (r: Result<
    ScanHeader,
    DecodeError,
>)
    requires
        start <= end <= data@.len(),
        frame.components@.len() <= 255,
    ensures
        r is Err <==> sos_error(data@.subrange(start as int, end as int), frame.components@) is Some,
        r is Err ==> sos_error(data@.subrange(start as int, end as int), frame.components@) == Some(
            r->Err_0,
        ),
        r is Ok ==> r->Ok_0.dc@.len() == frame.components@.len() && r->Ok_0.ac@.len()
            == frame.components@.len(),
        r is Ok ==> selectors_match(r->Ok_0, data@.subrange(start as int, end as int)),
        r is Ok ==> r->Ok_0.wf(frame.components@.len()),
{
    let ghost p = data@.subrange(start as int, end as int);
    let len = end - start;
    if len < 1 {
        return Err(DecodeError::MalformedSegment);
    }
    let n = data[start] as usize;
    if n != frame.components.len() {
        return Err(DecodeError::UnsupportedProfile);
    }
    if len != 1 + 2 * n + 3 {
        return Err(DecodeError::MalformedSegment);
    }
    let mut dc: Vec<u8> = Vec::new();
    let mut ac: Vec<u8> = Vec::new();
    let mut c: usize = 0;
    while c < n
        invariant
            start <= end <= data@.len(),
            p == data@.subrange(start as int, end as int),
            len == end - start,
            n == p[0],
            n == frame.components@.len(),
            len == 1 + 2 * n + 3,
            c <= n,
            dc@.len() == 0,
            ac@.len() == 0,
            forall|k: int| 0 <= k < c ==> #[trigger] p[1 + 2 * k] == frame.components@[k].id,
        decreases n - c,
    {
        if data[start + 1 + 2 * c] != frame.components[c].id {
            proof {
                assert(p[1 + 2 * (c as int)] != frame.components@[c as int].id);
            }
            return Err(DecodeError::MalformedSegment);
        }
        c = c + 1;
    }
    c = 0;
    while c < n
        invariant
            start <= end <= data@.len(),
            p == data@.subrange(start as int, end as int),
            len == end - start,
            n == p[0],
            n == frame.components@.len(),
            len == 1 + 2 * n + 3,
            c <= n,
            dc@.len() == c,
            ac@.len() == c,
            forall|k: int| 0 <= k < n ==> #[trigger] p[1 + 2 * k] == frame.components@[k].id,
            forall|k: int| 0 <= k < c ==> !(#[trigger] p[2 + 2 * k] as int / 16 > 3 || p[2 + 2 * k] as int % 16 > 3),
            forall|k: int|
                0 <= k < c ==> #[trigger] dc@[k] as int == p[2 + 2 * k] as int / 16 && ac@[k] as int == p[2 + 2 * k] as int % 16,
        decreases n - c,
    {
        let sel = data[start + 2 + 2 * c];
        if sel / 16 > 3 || sel % 16 > 3 {
            proof {
                assert(p[2 + 2 * (c as int)] == sel);
            }
            return Err(DecodeError::MalformedSegment);
        }
        dc.push(sel / 16);
        ac.push(sel % 16);
        proof {
            assert(p[2 + 2 * (c as int)] == sel);
        }
        c = c + 1;
    }
    if data[start + 1 + 2 * n] != 0 || data[start + 2 + 2 * n] != 63 || data[start + 3 + 2 * n]
        != 0 {
        return Err(DecodeError::UnsupportedProfile);
    }
    proof {
        assert(!(exists|k: int| 0 <= k < p[0] && #[trigger] p[1 + 2 * k] != frame.components@[k].id));
        assert(!(exists|k: int|
            0 <= k < p[0] && (#[trigger] p[2 + 2 * k] as int / 16 > 3 || p[2 + 2 * k] as int % 16 > 3)));
        assert(p.len() >= 1);
        assert(p[0] == frame.components@.len());
        assert(p.len() == 1 + 2 * p[0] + 3);
        assert(p[1 + 2 * p[0]] == 0);
        assert(p[2 + 2 * p[0]] == 63);
        assert(p[3 + 2 * p[0]] == 0);
        assert(sos_error(p, frame.components@) is None);
        assert(dc@.len() == frame.components@.len());
    }
    let ghost dcs = dc@;
    let ghost acs = ac@;
    let h = ScanHeader { dc, ac };
    proof {
        assert(h.dc@ == dcs && h.ac@ == acs);
        assert(selectors_match(h, p));
        assert forall|c: int| 0 <= c < n implies #[trigger] h.dc@[c] <= 3 && h.ac@[c] <= 3 by {
            assert(dcs[c] as int == p[2 + 2 * c] as int / 16);
            assert(acs[c] as int == p[2 + 2 * c] as int % 16);
            assert(!(p[2 + 2 * c] as int / 16 > 3 || p[2 + 2 * c] as int % 16 > 3));
        }
    }
    Ok(h)
}

/// An APP0 payload begins with the identifier "JFIF\0" or "JFXX\0".
pub open spec fn app0_ok(p: Seq<u8>) -> bool {
    p.len() >= 5 && p[0] == 0x4A && p[1] == 0x46 && ((p[2] == 0x49 && p[3] == 0x46) || (p[2]
        == 0x58 && p[3] == 0x58)) && p[4] == 0
}

/// Checks the identifier of an APP0 payload; the rest (version, density, thumbnail) is not
/// used.
pub fn check_app0(data: &[u8], start: usize, end: usize) -> (r: Result<(), DecodeError>)
    requires
        start <= end <= data@.len(),
    ensures
        r is Ok <==> app0_ok(data@.subrange(start as int, end as int)),
        r is Err ==> r->Err_0 == DecodeError::MalformedSegment,
{
    if end - start < 5 {
        return Err(DecodeError::MalformedSegment);
    }
    let jfif = data[start + 2] == 0x49 && data[start + 3] == 0x46;
    let jfxx = data[start + 2] == 0x58 && data[start + 3] == 0x58;
    if data[start] == 0x4A && data[start + 1] == 0x46 && (jfif || jfxx) && data[start + 4] == 0 {
        Ok(())
    } else {
        Err(DecodeError::MalformedSegment)
    }
}

/// Entry `k` of the table that a DQT payload defines at `i`, in stream order: one byte each
/// for precision 0, two big-endian bytes each for precision 1.
pub open spec fn dqt_entry(p: Seq<u8>, i: int, precision: int, k: int) -> u16 {
    if precision == 0 {
        p[i + 1 + k] as u16
    } else {
        (p[i + 1 + 2 * k] as int * 256 + p[i + 2 + 2 * k] as int) as u16
    }
}

/// The quantization tables and their defined flags after the tables of a DQT payload from
/// `i` on: each starts with a byte whose high four bits are the precision (0 or 1) and low four
/// the destination (0..=3), followed by 64 entries.
pub open spec fn dqt_from(p: Seq<u8>, i: int, t: Seq<Seq<u16>>, d: Seq<bool>) -> Result<
    (Seq<Seq<u16>>, Seq<bool>),
    DecodeError,
>
    decreases p.len() - i,
{
    if i < 0 || i >= p.len() {
        Ok((t, d))
    } else {
        let precision = p[i] as int / 16;
        let id = p[i] as int % 16;
        if precision > 1 || id > 3 {
            Err(DecodeError::MalformedSegment)
        } else if i + 1 + 64 * (precision + 1) > p.len() {
            Err(DecodeError::MalformedSegment)
        } else {
            dqt_from(
                p,
                i + 1 + 64 * (precision + 1),
                t.update(id, Seq::new(64, |k: int| dqt_entry(p, i, precision, k))),
                d.update(id, true),
            )
        }
    }
}

/// What a DQT payload does to the tables: an empty payload is refused.
pub open spec fn dqt_spec(p: Seq<u8>, t: Seq<Seq<u16>>, d: Seq<bool>) -> Result<
    (Seq<Seq<u16>>, Seq<bool>),
    DecodeError,
> {
    if p.len() == 0 {
        Err(DecodeError::MalformedSegment)
    } else {
        dqt_from(p, 0, t, d)
    }
}

/// The views of a list of tables.
pub open spec fn table_views(t: Seq<[u16; 64]>) -> Seq<Seq<u16>> {
    t.map_values(|a: [u16; 64]| a@)
}

/// Parses a DQT payload into the four quantization tables, marking the ones it defines.
pub fn parse_dqt(
    data: &[u8],
    start: usize,
    end: usize,
    tables: &mut Vec<[u16; 64]>,
    defined: &mut Vec<bool>,
) -> (r: Result<(), DecodeError>)
    requires
        start <= end <= data@.len(),
        old(tables)@.len() == 4,
        old(defined)@.len() == 4,
    ensures
        final(tables)@.len() == 4,
        final(defined)@.len() == 4,
        match dqt_spec(
            data@.subrange(start as int, end as int),
            table_views(old(tables)@),
            old(defined)@,
        ) {
            Ok((t, d)) => r is Ok && table_views(final(tables)@) == t && final(defined)@ == d,
            Err(e) => r == Err::<(), DecodeError>(e),
        },
{
    let ghost p = data@.subrange(start as int, end as int);
    if start == end {
        return Err(DecodeError::MalformedSegment);
    }
    let mut i: usize = start;
    while i < end
        invariant
            start <= i <= end <= data@.len(),
            p == data@.subrange(start as int, end as int),
            p.len() > 0,
            tables@.len() == 4,
            defined@.len() == 4,
            dqt_spec(p, table_views(old(tables)@), old(defined)@) == dqt_from(
                p,
                i - start,
                table_views(tables@),
                defined@,
            ),
        decreases end - i,
    {
        let info = data[i];
        let precision = (info / 16) as usize;
        let id = (info % 16) as usize;
        if precision > 1 || id > 3 {
            return Err(DecodeError::MalformedSegment);
        }
        let size = 64 * (precision + 1);
        if end - i - 1 < size {
            return Err(DecodeError::MalformedSegment);
        }
        let mut table: [u16; 64] = [0; 64];
        let mut k: usize = 0;
        while k < 64
            invariant
                start <= i < end <= data@.len(),
                p == data@.subrange(start as int, end as int),
                precision <= 1,
                size == 64 * (precision + 1),
                i + 1 + size <= end,
                k <= 64,
                table@.len() == 64,
                forall|j: int|
                    0 <= j < k ==> #[trigger] table@[j] == dqt_entry(
                        p,
                        i - start,
                        precision as int,
                        j,
                    ),
            decreases 64 - k,
        {
            if precision == 0 {
                table[k] = data[i + 1 + k] as u16;
            } else {
                table[k] = data[i + 1 + 2 * k] as u16 * 256 + data[i + 2 + 2 * k] as u16;
            }
            k = k + 1;
        }
        proof {
            assert(table@ =~= Seq::new(64, |k: int| dqt_entry(p, i - start, precision as int, k)));
        }
        let ghost t0 = tables@;
        tables[id] = table;
        defined[id] = true;
        proof {
            assert(table_views(tables@) =~= table_views(t0).update(
                id as int,
                Seq::new(64, |k: int| dqt_entry(p, i - start, precision as int, k)),
            ));
        }
        i = i + 1 + size;
    }
    Ok(())
}

/// Copies `data[from..to]` into a new vector.
pub fn copy_range(data: &[u8], from: usize, to: usize) -> (r: Vec<u8>)
    requires
        from <= to <= data@.len(),
    ensures
        r@ == data@.subrange(from as int, to as int),
{
    let mut r: Vec<u8> = Vec::new();
    let mut k: usize = from;
    while k < to
        invariant
            from <= k <= to <= data@.len(),
            r@ == data@.subrange(from as int, k as int),
        decreases to - k,
    {
        r.push(data[k]);
        k = k + 1;
        proof {
            assert(r@ =~= data@.subrange(from as int, k as int));
        }
    }
    r
}

/// A Huffman table defined by a DHT segment.
pub struct HuffmanDef {
    /// 0 for a DC table, 1 for an AC table.
    pub class: u8,
    /// Destination, 0..=3.
    pub id: u8,
    /// The table.
    pub table: HuffmanTree,
}

/// The definitions of a DHT payload from `i` on, as (class, destination, length counts,
/// symbols): each starts with a byte whose high four bits are the class (0 or 1) and low four
/// the destination (0..=3), then 16 length counts, then one symbol per code. Counts that do not
/// define a canonical code of at most 256 symbols are refused.
pub open spec fn dht_from(p: Seq<u8>, i: int) -> Result<Seq<(u8, u8, Seq<u8>, Seq<u8>)>, DecodeError>
    decreases p.len() - i,
{
    if i < 0 || i >= p.len() {
        Ok(Seq::empty())
    } else {
        let class = p[i] as int / 16;
        let id = p[i] as int % 16;
        if class > 1 || id > 3 {
            Err(DecodeError::MalformedSegment)
        } else if i + 17 > p.len() {
            Err(DecodeError::MalformedSegment)
        } else {
            let counts = p.subrange(i + 1, i + 17);
            let n = first_index(counts, 17) as int;
            if !valid_counts(counts) {
                Err(DecodeError::MalformedSegment)
            } else if i + 17 + n > p.len() {
                Err(DecodeError::MalformedSegment)
            } else {
                match dht_from(p, i + 17 + n) {
                    Ok(rest) => Ok(
                        seq![(class as u8, id as u8, counts, p.subrange(i + 17, i + 17 + n))]
                            + rest,
                    ),
                    Err(e) => Err(e),
                }
            }
        }
    }
}

/// The definitions of a DHT payload: an empty payload is refused.
pub open spec fn dht_spec(p: Seq<u8>) -> Result<Seq<(u8, u8, Seq<u8>, Seq<u8>)>, DecodeError> {
    if p.len() == 0 {
        Err(DecodeError::MalformedSegment)
    } else {
        dht_from(p, 0)
    }
}

/// The definitions as (class, destination, length counts, symbols).
pub open spec fn defs_view(defs: Seq<HuffmanDef>) -> Seq<(u8, u8, Seq<u8>, Seq<u8>)> {
    defs.map_values(|d: HuffmanDef| (d.class, d.id, d.table.counts(), d.table.symbols()))
}

/// `done` followed by the definitions of `r`.
pub open spec fn prepend(
    done: Seq<(u8, u8, Seq<u8>, Seq<u8>)>,
    r: Result<Seq<(u8, u8, Seq<u8>, Seq<u8>)>, DecodeError>,
) -> Result<Seq<(u8, u8, Seq<u8>, Seq<u8>)>, DecodeError> {
    match r {
        Ok(l) => Ok(done + l),
        Err(e) => Err(e),
    }
}

/// The sum of the 16 length counts.
fn count_sum(counts: &Vec<u8>) -> (r: usize)
    requires
        counts@.len() == 16,
    ensures
        r == first_index(counts@, 17),
        r <= 16 * 255,
{
    let mut total: usize = 0;
    let mut j: usize = 0;
    while j < 16
        invariant
            counts@.len() == 16,
            j <= 16,
            total == first_index(counts@, (j + 1) as nat),
            total <= 255 * j,
        decreases 16 - j,
    {
        total = total + counts[j] as usize;
        j = j + 1;
    }
    total
}

/// Parses a DHT payload into its table definitions, in order.
pub fn parse_dht(data: &[u8], start: usize, end: usize) -> (r: Result<Vec<HuffmanDef>, DecodeError>)
    requires
        start <= end <= data@.len(),
    ensures
        match dht_spec(data@.subrange(start as int, end as int)) {
            Ok(l) => r is Ok && defs_view(r->Ok_0@) == l && forall|j: int|
                0 <= j < r->Ok_0@.len() ==> (#[trigger] r->Ok_0@[j]).table.wf(),
            Err(e) => r is Err && r->Err_0 == e,
        },
{
    let ghost p = data@.subrange(start as int, end as int);
    if start == end {
        return Err(DecodeError::MalformedSegment);
    }
    let mut defs: Vec<HuffmanDef> = Vec::new();
    let mut i: usize = start;
    while i < end
        invariant
            start <= i <= end <= data@.len(),
            p == data@.subrange(start as int, end as int),
            p.len() > 0,
            dht_spec(p) == prepend(defs_view(defs@), dht_from(p, i - start)),
            forall|j: int| 0 <= j < defs@.len() ==> (#[trigger] defs@[j]).table.wf(),
        decreases end - i,
    {
        let info = data[i];
        let class = info / 16;
        let id = info % 16;
        if class > 1 || id > 3 {
            return Err(DecodeError::MalformedSegment);
        }
        if end - i < 17 {
            return Err(DecodeError::MalformedSegment);
        }
        let counts = copy_range(data, i + 1, i + 17);
        proof {
            assert(counts@ =~= p.subrange(i - start + 1, i - start + 17));
        }
        let n = count_sum(&counts);
        if end - (i + 17) < n {
            return Err(DecodeError::MalformedSegment);
        }
        let symbols = copy_range(data, i + 17, i + 17 + n);
        proof {
            assert(symbols@ =~= p.subrange(i - start + 17, i - start + 17 + n));
        }
        let ghost cv = counts@;
        let table = match HuffmanTree::build(counts, symbols) {
            Ok(t) => t,
            Err(e) => {
                return Err(e);
            },
        };
        let ghost d0 = defs@;
        defs.push(HuffmanDef { class, id, table });
        proof {
            assert(defs_view(defs@) =~= defs_view(d0) + seq![
                (class, id, p.subrange(i - start + 1, i - start + 17), p.subrange(i - start + 17, i - start + 17 + n)),
            ]);
        }
        let ghost ii = i - start;
        i = i + 17 + n;
        proof {
            let x = (
                class,
                id,
                p.subrange(ii + 1, ii + 17),
                p.subrange(ii + 17, ii + 17 + n),
            );
            assert(p.subrange(ii + 1, ii + 17) == cv);
            assert(dht_from(p, ii) == match dht_from(p, i - start) {
                Ok(rest) => Ok(seq![x] + rest),
                Err(e) => Err(e),
            });
            match dht_from(p, i - start) {
                Ok(rest) => {
                    assert(defs_view(d0) + (seq![x] + rest) =~= (defs_view(d0) + seq![x]) + rest);
                },
                Err(e) => {},
            }
        }
    }
    Ok(defs)
}

} // verus!
