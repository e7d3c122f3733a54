//! Byte and bit access to the input.
//!
//! Marker segments are read with `read_u8` / `read_u16`. Entropy-coded data is read through a
//! `BitReader`, which removes the byte stuffing (0xFF 0x00 stands for the data byte 0xFF) and
//! stops at the first 0xFF followed by any other byte, which begins a marker.
use vstd::prelude::*;
use vstd::arithmetic::power2::{pow2, lemma_pow2_pos, lemma_pow2_adds, lemma2_to64};
use vstd::arithmetic::div_mod::lemma_fundamental_div_mod_converse;
use vstd::bits::lemma_u64_shl_is_mul;

use crate::error::{eof, DecodeError, IoError};

verus! {

/// The big-endian value of the two bytes at `i`.
pub open spec fn be16_at(d: Seq<u8>, i: int) -> int {
    d[i] as int * 256 + d[i + 1] as int
}

/// Reads the byte at `*pos` and advances past it.
pub fn read_u8(data: &[u8], pos: &mut usize) -> (r: Result<u8, DecodeError>)
    ensures
        *old(pos) < data@.len() ==> r == Ok::<u8, DecodeError>(data@[*old(pos) as int])
            && *final(pos) == *old(pos) + 1,
        *old(pos) >= data@.len() ==> r == Err::<u8, DecodeError>(eof()) && *final(pos) == *old(pos),
{
    if *pos < data.len() {
        let b = data[*pos];
        *pos = *pos + 1;
        Ok(b)
    } else {
        Err(DecodeError::Io(IoError::UnexpectedEof))
    }
}

/// Reads the big-endian 16-bit value at `*pos` and advances past it.
pub fn read_u16(data: &[u8], pos: &mut usize) -> (r: Result<u16, DecodeError>)
    ensures
        *old(pos) + 2 <= data@.len() ==> r == Ok::<u16, DecodeError>(
            be16_at(data@, *old(pos) as int) as u16,
        ) && *final(pos) == *old(pos) + 2,
        *old(pos) + 2 > data@.len() ==> r == Err::<u16, DecodeError>(eof()) && *final(pos)
            == *old(pos),
{
    if *pos < data.len() && data.len() - *pos >= 2 {
        let hi = data[*pos];
        let lo = data[*pos + 1];
        *pos = *pos + 2;
        Ok(hi as u16 * 256 + lo as u16)
    } else {
        Err(DecodeError::Io(IoError::UnexpectedEof))
    }
}

/// The data bytes of the entropy-coded segment that starts at `i`: stuffed 0xFF 0x00 pairs
/// become one 0xFF; the segment ends at the end of input or at a 0xFF not followed by 0x00.
pub open spec fn destuffed(d: Seq<u8>, i: int) -> Seq<u8>
    decreases d.len() - i,
{
    if i < 0 || i >= d.len() {
        Seq::<u8>::empty()
    } else if d[i] != 0xFF {
        seq![d[i]] + destuffed(d, i + 1)
    } else if i + 1 < d.len() && d[i + 1] == 0 {
        seq![0xFFu8] + destuffed(d, i + 2)
    } else {
        Seq::<u8>::empty()
    }
}

/// Where the entropy-coded segment that starts at `i` ends: the index of the 0xFF that begins
/// the next marker, or the end of input.
pub open spec fn scan_end(d: Seq<u8>, i: int) -> int
    decreases d.len() - i,
{
    if i < 0 || i >= d.len() {
        if i < 0 { i } else { d.len() as int }
    } else if d[i] != 0xFF {
        scan_end(d, i + 1)
    } else if i + 1 < d.len() && d[i + 1] == 0 {
        scan_end(d, i + 2)
    } else {
        i
    }
}

/// Bit `k` of a byte sequence, most significant bit of each byte first; false past the end.
pub open spec fn bit_at(bytes: Seq<u8>, k: int) -> bool {
    0 <= k < 8 * bytes.len() && (bytes[k / 8] >> ((7 - k % 8) as u8)) & 1u8 == 1u8
}

/// The `n` bits of `bytes` from bit `p` on, read as an unsigned number, first bit most
/// significant. Bits past the end read as zero.
pub open spec fn bits_value(bytes: Seq<u8>, p: int, n: nat) -> nat
    decreases n,
{
    if n == 0 {
        0
    } else {
        2 * bits_value(bytes, p, (n - 1) as nat) + (if bit_at(bytes, p + n - 1) {
            1nat
        } else {
            0nat
        })
    }
}

/// A value of `n` bits is below 2^n.
pub proof fn lemma_bits_value_bound(bytes: Seq<u8>, p: int, n: nat)
    ensures
        bits_value(bytes, p, n) < pow2(n),
    decreases n,
{
    if n == 0 {
        lemma2_to64();
    } else {
        lemma_bits_value_bound(bytes, p, (n - 1) as nat);
        lemma_pow2_adds((n - 1) as nat, 1);
        lemma2_to64();
    }
}

/// Reading `a + b` bits is reading `a` bits, then `b` more.
pub proof fn lemma_bits_value_split(bytes: Seq<u8>, p: int, a: nat, b: nat)
    ensures
        bits_value(bytes, p, a + b) == bits_value(bytes, p, a) * pow2(b) + bits_value(
            bytes,
            p + a,
            b,
        ),
    decreases b,
{
    if b == 0 {
        lemma2_to64();
        let x = bits_value(bytes, p, a) as int;
        assert(x * pow2(b) == x) by (nonlinear_arith)
            requires
                pow2(b) == 1,
        ;
    } else {
        lemma_bits_value_split(bytes, p, a, (b - 1) as nat);
        lemma_pow2_adds((b - 1) as nat, 1);
        lemma2_to64();
        let x = bits_value(bytes, p, a) as int;
        let y = bits_value(bytes, p + a, (b - 1) as nat) as int;
        let q = pow2((b - 1) as nat) as int;
        let t: nat = if bit_at(bytes, p + a + b - 1) { 1 } else { 0 };
        assert(2 * (x * q + y) + t == x * (q * 2) + (2 * y + t)) by (nonlinear_arith);
        assert((a + b - 1) as nat == a + (b - 1) as nat);
        assert(bits_value(bytes, p, a + b) == 2 * bits_value(bytes, p, (a + b - 1) as nat) + t);
        assert(bits_value(bytes, p + a, b) == 2 * y + t);
        assert(pow2(b) == q * 2);
        assert(x * pow2(b) == x * (q * 2));
    }
}

/// Bits past the end of the bytes read as zero.
pub proof fn lemma_bits_value_past_end(bytes: Seq<u8>, p: int, n: nat)
    requires
        p >= 8 * bytes.len(),
    ensures
        bits_value(bytes, p, n) == 0,
    decreases n,
{
    if n > 0 {
        lemma_bits_value_past_end(bytes, p, (n - 1) as nat);
    }
}

/// The eight bits of byte `j` read back as that byte.
pub proof fn lemma_bits_value_byte(bytes: Seq<u8>, j: int)
    requires
        0 <= j < bytes.len(),
    ensures
        bits_value(bytes, 8 * j, 8) == bytes[j] as nat,
{
    let b = bytes[j];
    lemma_fundamental_div_mod_converse(8 * j + 0, 8, j, 0);
    lemma_fundamental_div_mod_converse(8 * j + 1, 8, j, 1);
    lemma_fundamental_div_mod_converse(8 * j + 2, 8, j, 2);
    lemma_fundamental_div_mod_converse(8 * j + 3, 8, j, 3);
    lemma_fundamental_div_mod_converse(8 * j + 4, 8, j, 4);
    lemma_fundamental_div_mod_converse(8 * j + 5, 8, j, 5);
    lemma_fundamental_div_mod_converse(8 * j + 6, 8, j, 6);
    lemma_fundamental_div_mod_converse(8 * j + 7, 8, j, 7);
    reveal_with_fuel(bits_value, 9);
    assert(b as u32 == ((b >> 7u8) & 1u8) as u32 * 128 + ((b >> 6u8) & 1u8) as u32 * 64 + ((b
        >> 5u8) & 1u8) as u32 * 32 + ((b >> 4u8) & 1u8) as u32 * 16 + ((b >> 3u8) & 1u8) as u32
        * 8 + ((b >> 2u8) & 1u8) as u32 * 4 + ((b >> 1u8) & 1u8) as u32 * 2 + ((b >> 0u8) & 1u8)
        as u32) by (bit_vector);
    assert forall|s: u8| s < 8 implies ((b >> s) & 1u8 == 1u8) || ((b >> s) & 1u8 == 0u8) by {
        assert(((b >> s) & 1u8 == 1u8) || ((b >> s) & 1u8 == 0u8)) by (bit_vector);
    }
}

/// A stuffed pair 0xFF 0x00 yields the one data byte 0xFF, and nothing for the 0x00.
pub proof fn lemma_destuff_pair(d: Seq<u8>, i: int)
    requires
        0 <= i,
        i + 1 < d.len(),
        d[i] == 0xFF,
        d[i + 1] == 0,
    ensures
        destuffed(d, i) == seq![0xFFu8] + destuffed(d, i + 2),
        scan_end(d, i) == scan_end(d, i + 2),
{
}

/// At 0xFF followed by a byte other than 0x00 the data ends, and the segment ends right there,
/// so the two bytes are left for the marker parser.
pub proof fn lemma_destuff_marker(d: Seq<u8>, i: int)
    requires
        0 <= i,
        i + 1 < d.len(),
        d[i] == 0xFF,
        d[i + 1] != 0,
    ensures
        destuffed(d, i) == Seq::<u8>::empty(),
        scan_end(d, i) == i,
{
}

/// The entropy-coded segment ends at or before the end of input, and not before it starts.
pub proof fn lemma_scan_end_bounds(d: Seq<u8>, i: int)
    requires
        0 <= i <= d.len(),
    ensures
        i <= scan_end(d, i) <= d.len(),
    decreases d.len() - i,
{
    if i < d.len() {
        if d[i] != 0xFF {
            lemma_scan_end_bounds(d, i + 1);
        } else if i + 1 < d.len() && d[i + 1] == 0 {
            lemma_scan_end_bounds(d, i + 2);
        }
    }
}

/// Finds where the entropy-coded segment that starts at `pos` ends.
pub fn find_scan_end(data: &[u8], pos: usize) -> (r: usize)
    requires
        pos <= data@.len(),
    ensures
        r == scan_end(data@, pos as int),
{
    let mut i: usize = pos;
    while i < data.len()
        invariant
            pos <= i <= data@.len(),
            scan_end(data@, i as int) == scan_end(data@, pos as int),
        decreases data@.len() - i,
    {
        if data[i] != 0xFF {
            i = i + 1;
        } else if i + 1 < data.len() && data[i + 1] == 0 {
            i = i + 2;
        } else {
            return i;
        }
    }
    i
}

/// A most-significant-bit-first reader of the entropy-coded segment that starts at a given
/// position of the input. The input itself is handed to each call.
pub struct BitReader {
    /// Index of the next input byte to examine.
    pos: usize,
    /// The buffered bits, right-aligned; the oldest is the most significant.
    bitbuf: u64,
    /// How many bits are buffered.
    bitlen: u32,
    start: Ghost<int>,
    /// How many data bytes have entered the buffer.
    loaded: Ghost<nat>,
}

impl BitReader {
    /// Where the entropy-coded segment begins in the input.
    pub closed spec fn start(&self) -> int {
        self.start@
    }

    /// How many bits have been handed out.
    pub closed spec fn consumed(&self) -> int {
        8 * self.loaded@ - self.bitlen
    }

    /// How many bits sit in the buffer.
    pub closed spec fn buffered(&self) -> int {
        self.bitlen as int
    }

    /// The data bytes of the segment, with the stuffing removed.
    pub open spec fn stream(&self, d: Seq<u8>) -> Seq<u8> {
        destuffed(d, self.start())
    }

    /// How many bits the segment holds.
    pub open spec fn total_bits(&self, d: Seq<u8>) -> int {
        8 * self.stream(d).len() as int
    }

    /// The reader's state agrees with input `d`.
    pub closed spec fn wf(&self, d: Seq<u8>) -> bool {
        let s = destuffed(d, self.start@);
        &&& 0 <= self.start@ <= self.pos
        &&& self.loaded@ <= s.len()
        &&& s.subrange(self.loaded@ as int, s.len() as int) == destuffed(d, self.pos as int)
        &&& scan_end(d, self.pos as int) == scan_end(d, self.start@)
        &&& self.bitlen <= 32
        &&& self.bitlen <= 8 * self.loaded@
        &&& self.bitbuf as nat == bits_value(s, self.consumed(), self.bitlen as nat)
    }

    /// A reader of the entropy-coded segment that starts at byte `start`.
    pub fn new(start: usize) -> (r: Self)
        ensures
            r.start() == start as int,
            r.consumed() == 0,
            r.buffered() == 0,
            forall|d: Seq<u8>| #[trigger] r.wf(d),
    {
        let r = BitReader {
            pos: start,
            bitbuf: 0,
            bitlen: 0,
            start: Ghost(start as int),
            loaded: Ghost(0),
        };
        assert forall|d: Seq<u8>| #[trigger] r.wf(d) by {
            let s = destuffed(d, start as int);
            assert(s.subrange(0, s.len() as int) =~= s);
        }
        r
    }

    /// Where the segment ends in input `data`: the index of the 0xFF that begins the next
    /// marker, or the end of input.
    pub fn end_of_scan(&self, data: &[u8]) -> (r: usize)
        requires
            self.wf(data@),
        ensures
            r == scan_end(data@, self.start()),
    {
        if self.pos >= data.len() {
            return data.len();
        }
        find_scan_end(data, self.pos)
    }

    /// Examines the input at `self.pos` for the next data byte and moves past it.
    fn byte_refill(&mut self, data: &[u8]) -> (r: Option<u8>)
        ensures
            final(self).bitbuf == old(self).bitbuf,
            final(self).bitlen == old(self).bitlen,
            final(self).start == old(self).start,
            final(self).loaded == old(self).loaded,
            match r {
                Some(b) => destuffed(data@, old(self).pos as int) == seq![b] + destuffed(
                    data@,
                    final(self).pos as int,
                ) && scan_end(data@, old(self).pos as int) == scan_end(
                    data@,
                    final(self).pos as int,
                ) && old(self).pos < final(self).pos,
                None => destuffed(data@, old(self).pos as int) == Seq::<u8>::empty()
                    && final(self).pos == old(self).pos,
            },
            old(self).pos < data@.len() && data@[old(self).pos as int] != 0xFF ==> r == Some(
                data@[old(self).pos as int],
            ) && final(self).pos == old(self).pos + 1,
            old(self).pos + 1 < data@.len() && data@[old(self).pos as int] == 0xFF
                && data@[old(self).pos + 1] == 0 ==> r == Some(0xFFu8) && final(self).pos
                == old(self).pos + 2,
            old(self).pos + 1 < data@.len() && data@[old(self).pos as int] == 0xFF
                && data@[old(self).pos + 1] != 0 ==> r is None,
    {
        if self.pos >= data.len() {
            return None;
        }
        let b = data[self.pos];
        if b != 0xFF {
            self.pos = self.pos + 1;
            return Some(b);
        }
        if self.pos + 1 < data.len() && data[self.pos + 1] == 0 {
            self.pos = self.pos + 2;
            Some(0xFF)
        } else {
            None
        }
    }

    /// Moves one more data byte into the buffer; false when the segment has no more.
    fn refill_byte(&mut self, data: &[u8]) -> (r: bool)
        requires
            old(self).wf(data@),
            old(self).bitlen <= 24,
        ensures
            final(self).wf(data@),
            final(self).start() == old(self).start(),
            final(self).consumed() == old(self).consumed(),
            r ==> final(self).buffered() == old(self).buffered() + 8,
            !r ==> final(self).buffered() == old(self).buffered() && old(self).consumed() + old(self).buffered() == old(self).total_bits(data@),
    {
        let ghost s = destuffed(data@, self.start@);
        let ghost c = self.consumed();
        match self.byte_refill(data) {
            Some(b) => {
                proof {
                    let l = self.loaded@ as int;
                    let rest = s.subrange(l, s.len() as int);
                    assert(rest == seq![b] + destuffed(data@, self.pos as int));
                    assert(rest.len() >= 1);
                    assert(rest[0] == b);
                    assert(s[l] == b);
                    assert(s.subrange(l + 1, s.len() as int) =~= destuffed(data@, self.pos as int))
                        by {
                        assert(s.subrange(l + 1, s.len() as int) =~= s.subrange(
                            l,
                            s.len() as int,
                        ).subrange(1, s.len() - l));
                    }
                    lemma_bits_value_bound(s, c, self.bitlen as nat);
                    lemma_bits_value_split(s, c, self.bitlen as nat, 8);
                    assert(c + self.bitlen == 8 * l);
                    lemma_bits_value_byte(s, l);
                    lemma2_to64();
                    lemma_pow2_pos(self.bitlen as nat);
                    if self.bitlen < 24 {
                        vstd::arithmetic::power2::lemma_pow2_strictly_increases(
                            self.bitlen as nat,
                            24,
                        );
                    }
                }
                self.bitbuf = self.bitbuf * 256 + b as u64;
                self.bitlen = self.bitlen + 8;
                self.loaded = Ghost(self.loaded@ + 1);
                proof {
                    assert((self.bitlen - 8) as nat + 8 == self.bitlen as nat);
                }
                true
            },
            None => {
                proof {
                    let l = self.loaded@ as int;
                    assert(s.subrange(l, s.len() as int).len() == 0);
                }
                false
            },
        }
    }

    /// Hands out the next bit, or `None` when the segment has no more.
    pub fn get_bit(&mut self, data: &[u8]) -> (r: Option<bool>)
        requires
            old(self).wf(data@),
        ensures
            final(self).wf(data@),
            final(self).start() == old(self).start(),
            old(self).consumed() + 1 <= old(self).total_bits(data@) ==> r == Some(
                bit_at(old(self).stream(data@), old(self).consumed()),
            ) && final(self).consumed() == old(self).consumed() + 1,
            old(self).consumed() + 1 > old(self).total_bits(data@) ==> r is None && final(self).consumed() == old(self).consumed(),
    {
        let r = self.get_n_bits(data, 1);
        proof {
            reveal_with_fuel(bits_value, 2);
        }
        match r {
            Some(v) => Some(v == 1),
            None => None,
        }
    }

    /// Hands out the next `n` bits as a number, first bit most significant, or `None` when the
    /// segment has fewer than `n` bits left (the position then stays).
    pub fn get_n_bits(&mut self, data: &[u8], n: u32) -> (r: Option<u16>)
        requires
            old(self).wf(data@),
            n <= 16,
        ensures
            final(self).wf(data@),
            final(self).start() == old(self).start(),
            old(self).consumed() + n <= old(self).total_bits(data@) ==> r == Some(
                bits_value(old(self).stream(data@), old(self).consumed(), n as nat) as u16,
            ) && final(self).consumed() == old(self).consumed() + n,
            old(self).consumed() + n > old(self).total_bits(data@) ==> r is None && final(self).consumed() == old(self).consumed(),
    {
        let ghost s = old(self).stream(data@);
        let ghost c = old(self).consumed();
        while self.bitlen < n
            invariant
                self.wf(data@),
                self.start() == old(self).start(),
                self.consumed() == c,
                s == self.stream(data@),
                s == old(self).stream(data@),
                c == old(self).consumed(),
                n <= 16,
            decreases 32 - self.bitlen,
        {
            let ghost before = *self;
            if !self.refill_byte(data) {
                proof {
                    assert(before.buffered() < n);
                    assert(self.buffered() < n);
                    assert(before.consumed() + before.buffered() == before.total_bits(data@));
                    assert(before.total_bits(data@) == 8 * s.len());
                    assert(c + n > 8 * s.len());
                }
                return None;
            }
        }
        proof {
            assert(c + self.bitlen <= 8 * s.len());
        }
        let code = self.take_bits(data, n);
        proof {
            lemma_bits_value_bound(s, c, n as nat);
            if n < 16 {
                vstd::arithmetic::power2::lemma_pow2_strictly_increases(n as nat, 16);
            }
            lemma2_to64();
        }
        Some(code as u16)
    }

    /// The next `n` bits as a number, without handing them out; past the end of the segment
    /// the bits read as zero. Afterwards at least `n` bits are buffered, unless the buffer holds
    /// the rest of the segment.
    pub fn peek_bits(&mut self, data: &[u8], n: u32) -> (r: u16)
        requires
            old(self).wf(data@),
            n <= 16,
        ensures
            final(self).wf(data@),
            final(self).start() == old(self).start(),
            final(self).consumed() == old(self).consumed(),
            r == bits_value(old(self).stream(data@), old(self).consumed(), n as nat),
            final(self).buffered() >= n || final(self).consumed() + final(self).buffered()
                == final(self).total_bits(data@),
    {
        let ghost s = old(self).stream(data@);
        let ghost c = old(self).consumed();
        let mut more = true;
        while more && self.bitlen < n
            invariant
                self.wf(data@),
                self.start() == old(self).start(),
                self.consumed() == c,
                s == self.stream(data@),
                s == old(self).stream(data@),
                c == old(self).consumed(),
                n <= 16,
                !more ==> self.consumed() + self.buffered() == 8 * s.len(),
            decreases 32 - self.bitlen + (if more { 1int } else { 0int }),
        {
            if !self.refill_byte(data) {
                more = false;
            }
        }
        let len = self.bitlen;
        proof {
            lemma_bits_value_bound(s, c, n as nat);
            if n < 16 {
                vstd::arithmetic::power2::lemma_pow2_strictly_increases(n as nat, 16);
            }
            lemma2_to64();
        }
        if len >= n {
            let shift: u64 = (len - n) as u64;
            proof {
                vstd::bits::lemma_u64_pow2_no_overflow(shift as nat);
                lemma_u64_shl_is_mul(1, shift);
                lemma_pow2_pos(shift as nat);
                lemma_bits_value_split(s, c, n as nat, shift as nat);
                lemma_bits_value_bound(s, c + n, shift as nat);
                assert(n as nat + shift as nat == len as nat);
                lemma_fundamental_div_mod_converse(
                    self.bitbuf as int,
                    pow2(shift as nat) as int,
                    bits_value(s, c, n as nat) as int,
                    bits_value(s, c + n, shift as nat) as int,
                );
            }
            (self.bitbuf / (1u64 << shift)) as u16
        } else {
            let shift: u64 = (n - len) as u64;
            proof {
                vstd::bits::lemma_u64_pow2_no_overflow(shift as nat);
                lemma_u64_shl_is_mul(1, shift);
                lemma_bits_value_split(s, c, len as nat, shift as nat);
                lemma_bits_value_past_end(s, c + len, shift as nat);
                assert(len as nat + shift as nat == n as nat);
                lemma_bits_value_bound(s, c, len as nat);
                lemma_pow2_pos(shift as nat);
                if len < 16 {
                    vstd::arithmetic::power2::lemma_pow2_strictly_increases(len as nat, 16);
                }
            }
            (self.bitbuf * (1u64 << shift)) as u16
        }
    }

    /// Hands out `n` bits that are buffered, as after `peek_bits`.
    pub fn consume_bits(&mut self, data: &[u8], n: u32)
        requires
            old(self).wf(data@),
            n <= old(self).buffered(),
        ensures
            final(self).wf(data@),
            final(self).start() == old(self).start(),
            final(self).consumed() == old(self).consumed() + n,
    {
        let _ = self.take_bits(data, n);
    }

    /// Takes `n` buffered bits.
    fn take_bits(&mut self, data: &[u8], n: u32) -> (r: u64)
        requires
            old(self).wf(data@),
            n <= old(self).bitlen,
        ensures
            final(self).wf(data@),
            final(self).start() == old(self).start(),
            final(self).consumed() == old(self).consumed() + n,
            final(self).buffered() == old(self).buffered() - n,
            r == bits_value(old(self).stream(data@), old(self).consumed(), n as nat),
    {
        let ghost s = old(self).stream(data@);
        let ghost c = old(self).consumed();
        let shift: u64 = (self.bitlen - n) as u64;
        proof {
            vstd::bits::lemma_u64_pow2_no_overflow(shift as nat);
            lemma_u64_shl_is_mul(1, shift);
            lemma_pow2_pos(shift as nat);
            lemma_bits_value_split(s, c, n as nat, shift as nat);
            lemma_bits_value_bound(s, c + n, shift as nat);
            assert(n as nat + shift as nat == self.bitlen as nat);
            lemma_fundamental_div_mod_converse(
                self.bitbuf as int,
                pow2(shift as nat) as int,
                bits_value(s, c, n as nat) as int,
                bits_value(s, c + n, shift as nat) as int,
            );
        }
        let div: u64 = 1u64 << shift;
        let code = self.bitbuf / div;
        self.bitbuf = self.bitbuf % div;
        self.bitlen = shift as u32;
        code
    }
}

} // verus!
