//! Bit-range maps: the projection of operand-value bits onto the bits of an
//! encoded instruction word, and the encoder that writes such a projection
//! into a byte buffer (little-endian bit order: bit 0 is the least-significant
//! bit of byte 0).

use vstd::prelude::*;

verus! {

/// A bit mask with ones in positions `0 .. n`; meaningful for `n <= 63`.
pub open spec fn low_mask(n: u64) -> u64 {
    ((1u64 << n) - 1) as u64
}

/// Byte `k` (counting from the least-significant end) of a 64-bit word.
pub open spec fn byte_at(x: u64, k: u64) -> u8 {
    ((x >> ((8 * k) as u64)) & 0xff) as u8
}

/// Bit `i` of a 64-bit word.
pub open spec fn u64_bit(x: u64, i: u64) -> bool {
    (x >> i) & 1 == 1
}

/// Bit `i` of a byte buffer, little-endian bit order.
pub open spec fn buf_bit(buf: Seq<u8>, i: int) -> bool {
    (buf[i / 8] >> ((i % 8) as u8)) & 1 == 1
}

/// The buffer after one bit-range map `m` has encoded operand value `v` into
/// an instruction that starts at byte `start`: the window bytes combine the
/// old contents with the operand bits, all other bytes keep their old value.
pub open spec fn apply_map(buf: Seq<u8>, m: BitRangeMap, start: int, v: u64) -> Seq<u8> {
    Seq::new(
        buf.len(),
        |j: int|
            if start + m.spec_base() <= j < start + m.spec_base() + 8 {
                m.encoded_byte(v, buf[j], (j - start - m.spec_base()) as u64)
            } else {
                buf[j]
            },
    )
}

/// Asserts that bits `[value_last:value_first]` of an operand value appear in
/// the encoded instruction starting at bit `instruction_first`.
#[derive(Copy, Clone, Debug)]
pub struct BitRangeMap {
    pub value_last: i32,
    pub value_first: i32,
    pub instruction_first: i32,
}

impl BitRangeMap {
    /// Number of operand bits covered by the map.
    pub open spec fn spec_len(self) -> int {
        self.value_last - self.value_first + 1
    }

    /// Index of the last instruction bit written by the map.
    pub open spec fn spec_instruction_last(self) -> int {
        self.instruction_first + self.value_last - self.value_first
    }

    /// Validity of a map: the ranges are non-negative and within what 64-bit
    /// encoding arithmetic can move in one piece.
    pub open spec fn wf(self) -> bool {
        &&& 0 <= self.value_first <= self.value_last < 64
        &&& self.spec_len() <= 63
        &&& 0 <= self.instruction_first <= 0x0fff_ffff
        &&& self.spec_len() + self.instruction_first % 8 <= 64
    }

    /// Offset of the window within its first byte.
    pub open spec fn spec_shift(self) -> u64 {
        (self.instruction_first % 8) as u64
    }

    /// Index of the first byte written by the map, relative to the start of
    /// the instruction buffer.
    pub open spec fn spec_base(self) -> int {
        self.instruction_first / 8
    }

    /// The operand-bit mask, shifted down to bit 0 and up to the in-byte
    /// offset of the target: ones exactly at the window bit positions.
    pub open spec fn window_mask(self) -> u64 {
        low_mask(self.spec_len() as u64) << self.spec_shift()
    }

    /// The selected operand bits, moved to the window bit positions.
    pub open spec fn window_val(self, v: u64) -> u64 {
        ((v >> (self.value_first as u64)) & low_mask(self.spec_len() as u64)) << self.spec_shift()
    }

    /// Byte `k` of the target region after encoding `v` over a byte that
    /// previously held `prev`.
    pub open spec fn encoded_byte(self, v: u64, prev: u8, k: u64) -> u8 {
        (prev & !byte_at(self.window_mask(), k)) | byte_at(self.window_val(v), k)
    }

    pub fn new(value_last: i32, value_first: i32, instruction_first: i32) -> (r: Self)
        ensures
            r == (BitRangeMap { value_last, value_first, instruction_first }),
    {
        BitRangeMap { value_last, value_first, instruction_first }
    }

    pub fn instruction_last(&self) -> (r: i32)
        requires
            self.wf(),
        ensures
            r == self.spec_instruction_last(),
    {
        self.instruction_first + self.value_last - self.value_first
    }

    /// Mask selecting bits `[value_last:value_first]` of an operand value.
    pub fn value_bitmask(&self) -> (r: u64)
        requires
            self.wf(),
        ensures
            r == low_mask(self.spec_len() as u64) << (self.value_first as u64),
    {
        let value_len = self.value_last - self.value_first + 1;
        proof {
            lemma_low_mask_bounds(value_len as u64);
        }
        ((1u64 << (value_len as u64)) - 1) << (self.value_first as u64)
    }

    /// Overwrites exactly the instruction bits
    /// `[instruction_first + value_last - value_first : instruction_first]`
    /// (taken relative to bit 0 of `bytes[start]`) with bits
    /// `[value_last : value_first]` of `value`; every other bit of the buffer
    /// is preserved.
    pub fn encode_into(&self, bytes: &mut Vec<u8>, start: usize, value: u64)
        requires
            self.wf(),
            start + self.spec_instruction_last() / 8 < old(bytes)@.len(),
        ensures
            final(bytes)@.len() == old(bytes)@.len(),
            forall|j: int|
                0 <= j < old(bytes)@.len() && j < start + self.spec_base() ==> final(bytes)@[j]
                    == old(bytes)@[j],
            forall|j: int|
                start + self.spec_instruction_last() / 8 < j < old(bytes)@.len()
                    ==> final(bytes)@[j] == old(bytes)@[j],
            forall|j: int|
                start + self.spec_base() <= j < start + self.spec_base() + 8
                    && j < old(bytes)@.len() ==> final(bytes)@[j] == self.encoded_byte(
                    value,
                    old(bytes)@[j],
                    (j - start - self.spec_base()) as u64,
                ),
            final(bytes)@ == apply_map(old(bytes)@, *self, start as int, value),
    {
        let ghost len_g: u64 = self.spec_len() as u64;
        let ghost sh_g: u64 = self.spec_shift();
        let buf_len = bytes.len();
        proof {
            lemma_last_byte(self.instruction_first as int, self.spec_len());
            assert((self.instruction_first % 8 + self.spec_len() - 1) / 8 >= 0) by (nonlinear_arith)
                requires
                    self.instruction_first % 8 + self.spec_len() - 1 >= 0,
            ;
            assert(self.spec_base() <= self.spec_instruction_last() / 8);
            lemma_mask_down(self.value_first as u64, len_g);
            lemma_val_down(value, self.value_first as u64, len_g);
            lemma_val_in_mask(value, self.value_first as u64, len_g, sh_g);
            lemma_shr_zero(self.window_mask());
            lemma_shr_zero(self.window_val(value));
        }
        let vmask = self.value_bitmask();
        let mut enc_value = (value & vmask) >> (self.value_first as u64);
        let mut enc_mask = vmask >> (self.value_first as u64);
        let sh: u64 = (self.instruction_first % 8) as u64;
        enc_value = enc_value << sh;
        enc_mask = enc_mask << sh;
        let mut instr_byte: usize = start + (self.instruction_first / 8) as usize;
        let ghost mut k: int = 0;
        while enc_mask != 0
            invariant
                self.wf(),
                len_g == self.spec_len(),
                sh_g == self.spec_shift(),
                0 <= k <= 8,
                8 * k <= len_g + sh_g + 7,
                enc_mask == self.window_mask() >> ((8 * k) as u64),
                enc_value == self.window_val(value) >> ((8 * k) as u64),
                instr_byte == start + self.spec_base() + k,
                start + self.spec_instruction_last() / 8 < old(bytes)@.len(),
                old(bytes)@.len() <= usize::MAX,
                self.spec_base() + (len_g + sh_g - 1) / 8 == self.spec_instruction_last() / 8,
                bytes@.len() == old(bytes)@.len(),
                forall|j: int|
                    0 <= j < bytes@.len() && !(start + self.spec_base() <= j < start
                        + self.spec_base() + k) ==> bytes@[j] == old(bytes)@[j],
                forall|j: int|
                    start + self.spec_base() <= j < start + self.spec_base() + k && j
                        < bytes@.len() ==> bytes@[j] == self.encoded_byte(
                        value,
                        old(bytes)@[j],
                        (j - start - self.spec_base()) as u64,
                    ),
            decreases 9 - k,
        {
            proof {
                lemma_window_live(len_g, sh_g, (8 * k) as u64);
                assert(8 * k < len_g + sh_g);
                assert(k <= (len_g + sh_g - 1) / 8) by (nonlinear_arith)
                    requires
                        8 * k < len_g + sh_g && k >= 0,
                ;
                assert(instr_byte < bytes@.len());
            }
            let bmask = #[verifier::truncate] ((enc_mask & 0xff) as u8);
            let bval = #[verifier::truncate] ((enc_value & 0xff) as u8);
            let b = bytes[instr_byte];
            bytes[instr_byte] = (b & !bmask) | bval;
            proof {
                lemma_shift_step(self.window_mask(), (8 * k) as u64);
                lemma_shift_step(self.window_val(value), (8 * k) as u64);
            }
            enc_mask = enc_mask >> 8;
            enc_value = enc_value >> 8;
            instr_byte = instr_byte + 1;
            proof {
                k = k + 1;
            }
        }
        proof {
            lemma_val_in_mask(value, self.value_first as u64, len_g, sh_g);
            assert forall|j: int|
                start + self.spec_base() + k <= j < start + self.spec_base() + 8 && j
                    < bytes@.len() implies bytes@[j] == self.encoded_byte(
                value,
                old(bytes)@[j],
                (j - start - self.spec_base()) as u64,
            ) by {
                let k2: u64 = (j - start - self.spec_base()) as u64;
                lemma_window_done(
                    self.window_mask(),
                    self.window_val(value),
                    (8 * k) as u64,
                    (8 * k2) as u64,
                );
                lemma_byte_noop(
                    old(bytes)@[j],
                    byte_at(self.window_mask(), k2),
                    byte_at(self.window_val(value), k2),
                );
            }
            assert(bytes@ =~= apply_map(old(bytes)@, *self, start as int, value));
        }
    }
}

/// For `1 <= n <= 63` the low mask is positive, so subtracting one from the
/// shifted-in power of two cannot underflow.
proof fn lemma_low_mask_bounds(n: u64)
    by (bit_vector)
    requires
        1 <= n <= 63,
    ensures
        1u64 << n >= 1,
        low_mask(n) >= 1,
{
}

/// Shifting the value mask back down yields the low mask.
proof fn lemma_mask_down(vf: u64, len: u64)
    by (bit_vector)
    requires
        vf < 64,
        1 <= len <= 63,
        vf + len <= 64,
    ensures
        (low_mask(len) << vf) >> vf == low_mask(len),
{
}

/// Masking under the value mask and shifting down agrees with shifting down
/// and masking under the low mask.
#[verifier::rlimit(100)]
proof fn lemma_val_down(v: u64, vf: u64, len: u64)
    by (bit_vector)
    requires
        vf < 64,
        1 <= len <= 63,
        vf + len <= 64,
    ensures
        (v & (low_mask(len) << vf)) >> vf == (v >> vf) & low_mask(len),
{
}

/// The window value has no bits outside the window mask.
proof fn lemma_val_in_mask(v: u64, vf: u64, len: u64, sh: u64)
    by (bit_vector)
    requires
        vf < 64,
        1 <= len <= 63,
        sh <= 7,
    ensures
        (((v >> vf) & low_mask(len)) << sh) & !(low_mask(len) << sh) == 0,
{
}

/// A right shift by zero is the identity.
proof fn lemma_shr_zero(x: u64)
    by (bit_vector)
    ensures
        x >> 0 == x,
{
}

/// While the remaining window mask is non-zero, the shift cursor is still
/// inside the window.
proof fn lemma_window_live(len: u64, sh: u64, s: u64)
    by (bit_vector)
    requires
        1 <= len <= 63,
        sh <= 7,
        len + sh <= 64,
    ensures
        (low_mask(len) << sh) >> s != 0 ==> s < len + sh,
{
}

/// Composing two right shifts adds the shift amounts.
proof fn lemma_shift_step(x: u64, s: u64)
    by (bit_vector)
    requires
        s <= 56,
    ensures
        (x >> s) >> 8 == x >> ((s + 8) as u64),
{
}

/// Once the remaining mask is zero, every later byte of mask and value is
/// zero.
proof fn lemma_window_done(m: u64, w: u64, s: u64, s2: u64)
    by (bit_vector)
    requires
        w & !m == 0,
        m >> s == 0,
        s <= s2,
    ensures
        (m >> s2) & 0xff == 0,
        (w >> s2) & 0xff == 0,
{
}

/// Encoding with an all-zero mask byte and an all-zero value byte leaves a
/// byte unchanged.
proof fn lemma_byte_noop(prev: u8, mb: u8, vb: u8)
    by (bit_vector)
    requires
        mb == 0,
        vb == 0,
    ensures
        (prev & !mb) | vb == prev,
{
}

/// Bit `t` of an encoded byte: inside the window it is the corresponding
/// operand bit, outside it is the previous buffer bit.
proof fn lemma_encoded_byte_bit(v: u64, vf: u64, len: u64, sh: u64, prev: u8, k: u64, t: u64)
    by (bit_vector)
    requires
        vf < 64,
        1 <= len <= 63,
        sh <= 7,
        vf + len <= 64,
        len + sh <= 64,
        k <= 7,
        t <= 7,
    ensures
        ((prev & !byte_at((low_mask(len) << sh), k)) | byte_at(
            (((v >> vf) & low_mask(len)) << sh),
            k,
        )) >> (t as u8) & 1 == (if 8 * k + t < sh || 8 * k + t >= sh + len {
            (prev >> (t as u8)) & 1
        } else {
            (((v >> ((vf + 8 * k + t - sh) as u64)) & 1) as u8)
        }),
{
}

/// Past the end of the window the mask has no bits left.
proof fn lemma_window_past(len: u64, sh: u64, s: u64)
    by (bit_vector)
    requires
        1 <= len <= 63,
        sh <= 7,
        len + sh <= 64,
        s >= len + sh,
    ensures
        (low_mask(len) << sh) >> s == 0,
{
}

/// One bit-range map changes no byte before its first window byte nor
/// after the byte of its last instruction bit.
pub proof fn lemma_apply_map_frame(buf: Seq<u8>, m: BitRangeMap, start: int, v: u64)
    requires
        m.wf(),
        0 <= start,
    ensures
        apply_map(buf, m, start, v).len() == buf.len(),
        forall|j: int|
            0 <= j < buf.len() && (j < start + m.spec_base() || j > start
                + m.spec_instruction_last() / 8) ==> apply_map(buf, m, start, v)[j] == buf[j],
{
    let len = m.spec_len() as u64;
    let sh = m.spec_shift();
    lemma_last_byte(m.instruction_first as int, m.spec_len());
    assert forall|j: int|
        0 <= j < buf.len() && (j < start + m.spec_base() || j > start + m.spec_instruction_last()
            / 8) implies apply_map(buf, m, start, v)[j] == buf[j] by {
        if start + m.spec_base() <= j < start + m.spec_base() + 8 {
            let k = j - start - m.spec_base();
            assert(j > start + m.spec_instruction_last() / 8);
            assert(k >= (sh + len - 1) / 8 + 1);
            vstd::arithmetic::div_mod::lemma_fundamental_div_mod(sh + len - 1, 8);
            assert(8 * k >= sh + len);
            lemma_window_past(len, sh, (8 * k) as u64);
            lemma_val_in_mask(v, m.value_first as u64, len, sh);
            lemma_window_done(m.window_mask(), m.window_val(v), (8 * k) as u64, (8 * k) as u64);
            lemma_byte_noop(buf[j], byte_at(m.window_mask(), k as u64), byte_at(m.window_val(v), k as u64));
        }
    }
}

/// The byte of the last instruction bit written by a map sits
/// `(instruction_first % 8 + len - 1) / 8` bytes past the first written byte.
proof fn lemma_last_byte(ifirst: int, len: int)
    requires
        0 <= ifirst,
        1 <= len,
    ensures
        ifirst / 8 + (ifirst % 8 + len - 1) / 8 == (ifirst + len - 1) / 8,
{
    let d = ifirst / 8;
    let r = ifirst % 8;
    assert(ifirst == 8 * d + r) by (nonlinear_arith)
        requires
            d == ifirst / 8 && r == ifirst % 8 && ifirst >= 0,
    ;
    assert((8 * d + (r + len - 1)) / 8 == d + (r + len - 1) / 8) by (nonlinear_arith)
        requires
            d >= 0 && r + len - 1 >= 0,
    ;
}

/// One global bit of the buffer after an encode: operand bits land in the
/// window, everything else keeps its old value.
proof fn lemma_encode_bit_at(
    m: BitRangeMap,
    v: u64,
    oldb: Seq<u8>,
    newb: Seq<u8>,
    start: int,
    i: int,
)
    requires
        m.wf(),
        0 <= start,
        start + m.spec_instruction_last() / 8 < oldb.len(),
        newb.len() == oldb.len(),
        forall|j: int| 0 <= j < oldb.len() && j < start + m.spec_base() ==> newb[j] == oldb[j],
        forall|j: int|
            start + m.spec_instruction_last() / 8 < j < oldb.len() ==> newb[j] == oldb[j],
        forall|j: int|
            start + m.spec_base() <= j < start + m.spec_base() + 8 && j < oldb.len() ==> newb[j]
                == m.encoded_byte(v, oldb[j], (j - start - m.spec_base()) as u64),
        0 <= i < 8 * oldb.len(),
    ensures
        8 * start + m.instruction_first <= i < 8 * start + m.instruction_first + m.spec_len()
            ==> buf_bit(newb, i) == u64_bit(
            v,
            (m.value_first + i - 8 * start - m.instruction_first) as u64,
        ),
        !(8 * start + m.instruction_first <= i < 8 * start + m.instruction_first + m.spec_len())
            ==> buf_bit(newb, i) == buf_bit(oldb, i),
{
    let l = oldb.len() as int;
    let j = i / 8;
    let t = i % 8;
    let base = m.spec_base();
    let sh = m.instruction_first % 8;
    let len = m.spec_len();
    let last = m.spec_instruction_last();
    vstd::arithmetic::div_mod::lemma_fundamental_div_mod(i, 8);
    vstd::arithmetic::div_mod::lemma_fundamental_div_mod(m.instruction_first as int, 8);
    vstd::arithmetic::div_mod::lemma_fundamental_div_mod(last, 8);
    assert(0 <= t < 8 && 0 <= sh < 8 && 0 <= last % 8 < 8) by (nonlinear_arith)
        requires
            t == i % 8 && sh == m.instruction_first % 8 && last % 8 == last % 8,
    ;
    assert(j < l) by (nonlinear_arith)
        requires
            0 <= i && i < 8 * l && j == i / 8,
    ;
    lemma_last_byte(m.instruction_first as int, len);
    assert((sh + len - 1) / 8 <= 7 && (sh + len - 1) / 8 >= 0) by (nonlinear_arith)
        requires
            0 <= sh + len - 1 <= 69 && sh + len <= 64,
    ;
    if j < start + base {
        assert(newb[j] == oldb[j]);
    } else if j > start + last / 8 {
        assert(newb[j] == oldb[j]);
    } else {
        let k = j - start - base;
        assert(0 <= k <= 7);
        assert(newb[j] == m.encoded_byte(v, oldb[j], k as u64));
        lemma_encoded_byte_bit(
            v,
            m.value_first as u64,
            len as u64,
            sh as u64,
            oldb[j],
            k as u64,
            t as u64,
        );
        assert(8 * k + t == i - 8 * start - 8 * base);
        if 8 * start + m.instruction_first <= i < 8 * start + m.instruction_first + len {
            lemma_bit01(v, (m.value_first + i - 8 * start - m.instruction_first) as u64);
        }
    }
}

/// A single extracted bit is zero or one, and casting it to a byte keeps it.
proof fn lemma_bit01(x: u64, s: u64)
    by (bit_vector)
    ensures
        (x >> s) & 1 <= 1,
        (((x >> s) & 1) as u8) == 1 <==> (x >> s) & 1 == 1,
{
}

/// The two bit-level laws of the encoder. After
/// [`BitRangeMap::encode_into`] has run, first: every buffer bit outside the
/// target window `[8 * start + instruction_first .. + len)` keeps its old
/// value, so an encode never touches bits outside the intended slot. Second:
/// reading the window bits back yields exactly bits
/// `[value_last : value_first]` of the operand, the round trip of encoding
/// then extracting.
pub proof fn lemma_encode_into_bits(
    m: BitRangeMap,
    v: u64,
    oldb: Seq<u8>,
    newb: Seq<u8>,
    start: int,
)
    requires
        m.wf(),
        0 <= start,
        start + m.spec_instruction_last() / 8 < oldb.len(),
        newb.len() == oldb.len(),
        forall|j: int| 0 <= j < oldb.len() && j < start + m.spec_base() ==> newb[j] == oldb[j],
        forall|j: int|
            start + m.spec_instruction_last() / 8 < j < oldb.len() ==> newb[j] == oldb[j],
        forall|j: int|
            start + m.spec_base() <= j < start + m.spec_base() + 8 && j < oldb.len() ==> newb[j]
                == m.encoded_byte(v, oldb[j], (j - start - m.spec_base()) as u64),
    ensures
        forall|i: int|
            0 <= i < 8 * oldb.len() && !(8 * start + m.instruction_first <= i < 8 * start
                + m.instruction_first + m.spec_len()) ==> buf_bit(newb, i) == buf_bit(oldb, i),
        forall|i: int|
            8 * start + m.instruction_first <= i < 8 * start + m.instruction_first + m.spec_len()
                ==> #[trigger] buf_bit(newb, i) == u64_bit(
                v,
                (m.value_first + i - 8 * start - m.instruction_first) as u64,
            ),
{
    assert forall|i: int|
        0 <= i < 8 * oldb.len() && !(8 * start + m.instruction_first <= i < 8 * start
            + m.instruction_first + m.spec_len()) implies buf_bit(newb, i) == buf_bit(
        oldb,
        i,
    ) by {
        lemma_encode_bit_at(m, v, oldb, newb, start, i);
    }
    assert forall|i: int|
        8 * start + m.instruction_first <= i < 8 * start + m.instruction_first
            + m.spec_len() implies #[trigger] buf_bit(newb, i) == u64_bit(
        v,
        (m.value_first + i - 8 * start - m.instruction_first) as u64,
    ) by {
        vstd::arithmetic::div_mod::lemma_fundamental_div_mod(
            m.spec_instruction_last(),
            8,
        );
        assert(0 <= m.spec_instruction_last() % 8 < 8) by (nonlinear_arith);
        assert(i < 8 * oldb.len());
        lemma_encode_bit_at(m, v, oldb, newb, start, i);
    }
}

} // verus!
