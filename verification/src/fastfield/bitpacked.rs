//! Bit-packed columns of `u64` values: every value is stored as its distance
//! from the least value, in as many bits as the largest distance takes.

use vstd::prelude::*;
use vstd::bytes::{
    lemma_auto_spec_u64_to_from_le_bytes, spec_u64_from_le_bytes, spec_u64_to_le_bytes, u64_from_le_bytes,
    u64_to_le_bytes,
};
use vstd::slice::slice_subrange;

verus! {

/// The size of the header of a column: the least value, then the bit width.
pub const COLUMN_HEADER_LEN: usize = 9;

/// Bit `i` of `bytes`, the lowest bit of each byte coming first.
pub open spec fn bit_at(bytes: Seq<u8>, i: int) -> u64 {
    ((bytes[i / 8] >> ((i % 8) as u8)) & 1) as u64
}

/// Bit `j` of `v`.
pub open spec fn bit_of(v: u64, j: nat) -> u64 {
    (v >> (j as u64)) & 1
}

/// The number that the `width` bits of `bytes` from bit `start` on spell, the
/// lowest bit first.
pub open spec fn packed_value(bytes: Seq<u8>, start: int, width: nat) -> u64
    decreases width,
{
    if width == 0 {
        0
    } else {
        packed_value(bytes, start, (width - 1) as nat) | (bit_at(bytes, start + width - 1) << ((width - 1) as u64))
    }
}

/// The lowest `width` bits of `v`.
pub open spec fn low_bits(v: u64, width: nat) -> u64 {
    if width >= 64 {
        v
    } else {
        v & (((1u64 << (width as u64)) - 1) as u64)
    }
}

/// `width` is the least number of bits that can spell `amplitude`.
pub open spec fn is_bit_width(amplitude: u64, width: nat) -> bool {
    &&& width <= 64
    &&& width < 64 ==> amplitude >> (width as u64) == 0
    &&& width > 0 ==> amplitude >> ((width - 1) as u64) != 0
}

/// The least number of bits that can spell `amplitude`.
pub fn compute_num_bits(amplitude: u64) -> (width: u8)
    ensures
        is_bit_width(amplitude, width as nat),
{
    let mut width: u8 = 0;
    while width < 64 && (amplitude >> width) != 0
        invariant
            width <= 64,
            width > 0 ==> amplitude >> ((width - 1) as u64) != 0,
        decreases 64 - width,
    {
        width = width + 1;
    }
    width
}

/// Bits that agree with the bits of `v` spell the low bits of `v`.
pub proof fn lemma_packed_is_low_bits(bytes: Seq<u8>, start: int, width: nat, v: u64)
    requires
        width <= 64,
        forall|j: nat| j < width ==> #[trigger] bit_at(bytes, start + j) == bit_of(v, j),
    ensures
        packed_value(bytes, start, width) == low_bits(v, width),
    decreases width,
{
    if width == 0 {
        assert(v & (((1u64 << 0u64) - 1) as u64) == 0) by (bit_vector);
    } else {
        let k = (width - 1) as nat;
        assert forall|j: nat| j < k implies #[trigger] bit_at(bytes, start + j) == bit_of(v, j) by {}
        lemma_packed_is_low_bits(bytes, start, k, v);
        let low = low_bits(v, k);
        let b = bit_of(v, k);
        assert(bit_at(bytes, start + k) == b);
        let s = k as u64;
        if width == 64 {
            assert(s == 63 ==> (v & (((1u64 << s) - 1) as u64)) | (((v >> s) & 1) << s) == v) by (bit_vector);
        } else {
            let w = width as u64;
            assert(s < 63 && w == s + 1 ==> (v & (((1u64 << s) - 1) as u64)) | (((v >> s) & 1) << s) == v & (((1u64
                << w) - 1) as u64)) by (bit_vector);
        }
    }
}

/// A number that `width` bits can spell is its own low `width` bits.
pub proof fn lemma_low_bits_of_small(v: u64, width: nat)
    requires
        width <= 64,
        width < 64 ==> v >> (width as u64) == 0,
    ensures
        low_bits(v, width) == v,
{
    if width < 64 {
        let w = width as u64;
        assert(w < 64 && v >> w == 0 ==> v & (((1u64 << w) - 1) as u64) == v) by (bit_vector);
    }
}

/// A number at most `amplitude` takes no more bits than `amplitude`.
pub proof fn lemma_small_fits(v: u64, amplitude: u64, width: nat)
    requires
        v <= amplitude,
        width < 64,
        amplitude >> (width as u64) == 0,
    ensures
        v >> (width as u64) == 0,
{
    let w = width as u64;
    assert(w < 64 && v <= amplitude && amplitude >> w == 0 ==> v >> w == 0) by (bit_vector);
}

/// Writes bits into bytes, the lowest bit of each byte first.
pub struct BitWriter {
    out: Vec<u8>,
    cur: u8,
    filled: u8,
    bits: Ghost<Seq<u64>>,
}

impl BitWriter {
    /// The bits written so far, each 0 or 1.
    pub closed spec fn bits(&self) -> Seq<u64> {
        self.bits@
    }

    /// The bytes written so far, the last one padded with zero bits.
    pub closed spec fn padded(&self) -> Seq<u8> {
        if self.filled == 0 {
            self.out@
        } else {
            self.out@.push(self.cur)
        }
    }

    /// The whole bytes written so far.
    pub closed spec fn flushed(&self) -> Seq<u8> {
        self.out@
    }

    /// Validity: the bytes hold the bits.
    pub closed spec fn wf(&self) -> bool {
        &&& self.filled < 8
        &&& self.bits@.len() == 8 * self.out@.len() + self.filled
        &&& self.cur >> self.filled == 0
        &&& forall|i: int| 0 <= i < self.bits@.len() ==> bit_at(self.padded(), i) == #[trigger] self.bits@[i]
    }

    /// A writer that appends to `out`, which holds whole bytes.
    pub fn new(out: Vec<u8>) -> (writer: BitWriter)
        ensures
            writer.wf(),
            writer.padded() == out@,
            writer.flushed() == out@,
            writer.bits().len() == 8 * out@.len(),
            forall|i: int| 0 <= i < writer.bits().len() ==> #[trigger] writer.bits()[i] == bit_at(out@, i),
    {
        let ghost bits = Seq::new((8 * out@.len()) as nat, |i: int| bit_at(out@, i));
        let writer = BitWriter { out, cur: 0, filled: 0, bits: Ghost(bits) };
        proof {
            assert(0u8 >> 0u8 == 0) by (bit_vector);
        }
        writer
    }

    /// Appends one bit.
    pub fn write_bit(&mut self, bit: u64)
        requires
            old(self).wf(),
            bit == 0 || bit == 1,
        ensures
            final(self).wf(),
            final(self).bits() == old(self).bits().push(bit),
            final(self).flushed().len() >= old(self).flushed().len(),
            final(self).flushed().take(old(self).flushed().len() as int) == old(self).flushed(),
    {
        let ghost before = self.padded();
        let ghost bits = self.bits@;
        let ghost cur = self.cur;
        let ghost filled = self.filled;
        let b = bit as u8;
        self.cur = self.cur | (b << self.filled);
        self.filled = self.filled + 1;
        self.bits = Ghost(bits.push(bit));
        let ghost byte = self.cur;
        proof {
            assert(filled < 8 && (b == 0 || b == 1) && cur >> filled == 0 ==> ((cur | (b << filled)) >> filled) & 1
                == b) by (bit_vector);
            assert forall|k: u8| k < filled implies (#[trigger] (byte >> k)) & 1 == (cur >> k) & 1 by {
                assert(k < filled && filled < 8 && (b == 0 || b == 1) ==> ((cur | (b << filled)) >> k) & 1 == (cur
                    >> k) & 1) by (bit_vector);
            }
            assert(filled < 7 && (b == 0 || b == 1) && cur >> filled == 0 ==> (cur | (b << filled)) >> ((filled
                + 1) as u8) == 0) by (bit_vector);
        }
        if self.filled == 8 {
            self.out.push(self.cur);
            self.cur = 0;
            self.filled = 0;
            proof {
                assert(0u8 >> 0u8 == 0) by (bit_vector);
            }
        }
        proof {
            let after = self.padded();
            let n = old(self).out@.len() as int;
            assert(after.len() == n + 1);
            assert(after[n] == byte);
            assert forall|i: int| 0 <= i < self.bits@.len() implies bit_at(after, i) == #[trigger] self.bits@[i] by {
                if i < bits.len() {
                    assert(bit_at(before, i) == bits[i]);
                    if i / 8 < n {
                        assert(after[i / 8] == before[i / 8]);
                    } else {
                        let k = (i % 8) as u8;
                        assert(before[n] == cur);
                        assert((byte >> k) & 1 == (cur >> k) & 1);
                    }
                } else {
                    assert(i / 8 == n && i % 8 == filled);
                }
            }
        }
    }

    /// Appends the lowest `width` bits of `v`, the lowest first.
    pub fn write_bits(&mut self, v: u64, width: u8)
        requires
            old(self).wf(),
            width <= 64,
        ensures
            final(self).wf(),
            final(self).flushed().len() >= old(self).flushed().len(),
            final(self).flushed().take(old(self).flushed().len() as int) == old(self).flushed(),
            final(self).bits().len() == old(self).bits().len() + width,
            forall|i: int| 0 <= i < old(self).bits().len() ==> #[trigger] final(self).bits()[i] == old(self).bits()[i],
            forall|j: nat| j < width ==> #[trigger] final(self).bits()[(old(self).bits().len() + j) as int] == bit_of(v, j),
    {
        let mut j: u8 = 0;
        while j < width
            invariant
                j <= width <= 64,
                self.wf(),
                self.flushed().len() >= old(self).flushed().len(),
                self.flushed().take(old(self).flushed().len() as int) == old(self).flushed(),
                self.bits().len() == old(self).bits().len() + j,
                forall|i: int| 0 <= i < old(self).bits().len() ==> #[trigger] self.bits()[i] == old(self).bits()[i],
                forall|k: nat| k < j ==> #[trigger] self.bits()[(old(self).bits().len() + k) as int] == bit_of(v, k),
            decreases width - j,
        {
            let bit = (v >> j) & 1;
            let ghost mid = self.flushed();
            proof {
                let s = j as u64;
                assert((v >> s) & 1 == 0 || (v >> s) & 1 == 1) by (bit_vector);
            }
            self.write_bit(bit);
            proof {
                let n = old(self).flushed().len() as int;
                assert(self.flushed().take(n) == self.flushed().take(mid.len() as int).take(n));
            }
            j = j + 1;
        }
    }

    /// Pads the last byte with zero bits, then pads with zero bytes up to a
    /// multiple of eight bytes, and returns the bytes.
    pub fn close(self) -> (out: Vec<u8>)
        requires
            self.wf(),
        ensures
            out@.len() >= self.padded().len(),
            out@.len() % 8 == 0,
            out@.len() < self.padded().len() + 8,
            out@.take(self.padded().len() as int) == self.padded(),
            out@.len() >= self.flushed().len(),
            out@.take(self.flushed().len() as int) == self.flushed(),
            forall|i: int| 0 <= i < self.bits().len() ==> bit_at(out@, i) == #[trigger] self.bits()[i],
    {
        let ghost padded = self.padded();
        let mut out = self.out;
        if self.filled > 0 {
            out.push(self.cur);
        }
        let base = out.len();
        let rem = base % 8;
        let pad: usize = if rem == 0 {
            0
        } else {
            8 - rem
        };
        let mut k: usize = 0;
        while k < pad
            invariant
                k <= pad,
                pad < 8,
                base == padded.len(),
                out@.len() == base + k,
                out@.take(padded.len() as int) == padded,
            decreases pad - k,
        {
            out.push(0);
            proof {
                assert(out@.take(padded.len() as int) == padded);
            }
            k = k + 1;
        }
        proof {
            assert(out@.take(self.flushed().len() as int) == padded.take(self.flushed().len() as int));
            assert forall|i: int| 0 <= i < self.bits().len() implies bit_at(out@, i) == #[trigger] self.bits()[i] by {
                assert(out@[i / 8] == padded[i / 8]);
                assert(bit_at(padded, i) == self.bits@[i]);
            }
        }
        out
    }
}


/// Why the bytes of a column cannot be read.
#[derive(Clone, Copy, Debug, PartialEq, Eq, Structural)]
pub enum ColumnError {
    /// The bytes end before the header does.
    TruncatedHeader,
    /// The header asks for more than 64 bits per value.
    BadBitWidth,
    /// The bytes end before the last value does.
    TruncatedValues,
}

/// The least value of a column, as its header gives it.
pub open spec fn column_min(bytes: Seq<u8>) -> u64 {
    spec_u64_from_le_bytes(bytes.subrange(0, 8))
}

/// The number of bits per value, as the header gives it.
pub open spec fn column_width(bytes: Seq<u8>) -> u8 {
    bytes[8]
}

/// Value `i` of a column: the least value plus what the bits of the value
/// spell.
pub open spec fn column_value(bytes: Seq<u8>, i: nat) -> u64 {
    ((column_min(bytes) + packed_value(bytes, 72 + i * column_width(bytes), column_width(bytes) as nat)) % 0x1_0000_0000_0000_0000) as u64
}

/// `bytes` has room for a header and `count` values.
pub open spec fn column_fits(bytes: Seq<u8>, count: nat) -> bool {
    &&& bytes.len() >= 9
    &&& column_width(bytes) <= 64
    &&& 72 + count * column_width(bytes) <= 8 * bytes.len()
}

/// `bytes` is a column that holds exactly `values`.
pub open spec fn column_holds(bytes: Seq<u8>, values: Seq<u64>) -> bool {
    &&& column_fits(bytes, values.len())
    &&& forall|i: nat| i < values.len() ==> #[trigger] column_value(bytes, i) == values[i as int]
}

/// Writes one column: a header, then each value at a fixed number of bits.
pub struct FastSingleFieldSerializer {
    writer: BitWriter,
    min_value: u64,
    max_value: u64,
    bit_width: u8,
    vals: Ghost<Seq<u64>>,
}

impl FastSingleFieldSerializer {
    /// The values added so far.
    pub closed spec fn values(&self) -> Seq<u64> {
        self.vals@
    }

    /// The least value that the column can take.
    pub closed spec fn min_value(&self) -> u64 {
        self.min_value
    }

    /// The largest value that the column can take.
    pub closed spec fn max_value(&self) -> u64 {
        self.max_value
    }

    /// The header as it is written.
    pub closed spec fn header(&self) -> Seq<u8> {
        spec_u64_to_le_bytes(self.min_value).push(self.bit_width)
    }

    /// Validity: the header stands first, then the bits of every value.
    pub closed spec fn wf(&self) -> bool {
        &&& self.writer.wf()
        &&& self.min_value <= self.max_value
        &&& is_bit_width((self.max_value - self.min_value) as u64, self.bit_width as nat)
        &&& self.writer.flushed().len() >= 9
        &&& self.writer.flushed().take(9) == self.header()
        &&& self.writer.bits().len() == 72 + self.vals@.len() * self.bit_width
        &&& forall|i: int| 0 <= i < self.vals@.len() ==> self.min_value <= #[trigger] self.vals@[i] <= self.max_value
        &&& forall|i: nat, j: nat|
            i < self.vals@.len() && j < self.bit_width ==> #[trigger] self.writer.bits()[72 + i * self.bit_width + j]
                == bit_of((self.vals@[i as int] - self.min_value) as u64, j)
    }

    /// Starts a column whose values lie between `min_value` and `max_value`.
    pub fn open(min_value: u64, max_value: u64) -> (serializer: FastSingleFieldSerializer)
        requires
            min_value <= max_value,
        ensures
            serializer.wf(),
            serializer.values() == Seq::<u64>::empty(),
            serializer.min_value() == min_value,
            serializer.max_value() == max_value,
    {
        let bit_width = compute_num_bits(max_value - min_value);
        let mut header = u64_to_le_bytes(min_value);
        header.push(bit_width);
        proof {
            lemma_auto_spec_u64_to_from_le_bytes();
            assert(header@.take(9) == header@);
        }
        let writer = BitWriter::new(header);
        FastSingleFieldSerializer { writer, min_value, max_value, bit_width, vals: Ghost(Seq::empty()) }
    }

    /// Appends a value, which lies between the bounds given at the start.
    pub fn add_val(&mut self, val: u64)
        requires
            old(self).wf(),
            old(self).min_value() <= val <= old(self).max_value(),
        ensures
            final(self).wf(),
            final(self).values() == old(self).values().push(val),
            final(self).min_value() == old(self).min_value(),
            final(self).max_value() == old(self).max_value(),
    {
        let ghost before = self.writer.bits();
        let ghost flushed = self.writer.flushed();
        let ghost n = self.vals@.len() as int;
        let ghost w = self.bit_width as int;
        self.writer.write_bits(val - self.min_value, self.bit_width);
        self.vals = Ghost(self.vals@.push(val));
        proof {
            assert((n + 1) * w == n * w + w) by (nonlinear_arith);
            assert(self.writer.flushed().take(9) == self.writer.flushed().take(flushed.len() as int).take(9));
            assert forall|i: nat, j: nat| i < n + 1 && j < w implies #[trigger] self.writer.bits()[72 + i
                * self.bit_width + j] == bit_of((self.vals@[i as int] - self.min_value) as u64, j) by {
                if i < n {
                    assert(i * w + j < n * w) by (nonlinear_arith)
                        requires
                            0 <= i < n,
                            0 <= j < w,
                    ;
                    assert(before[72 + i * self.bit_width + j] == bit_of(
                        (old(self).vals@[i as int] - self.min_value) as u64,
                        j,
                    ));
                } else {
                    assert(self.writer.bits()[(before.len() + j) as int] == bit_of((val - self.min_value) as u64, j));
                }
            }
        }
    }

    /// Pads the column to a multiple of eight bytes and returns its bytes.
    pub fn close_field(self) -> (bytes: Vec<u8>)
        requires
            self.wf(),
        ensures
            column_holds(bytes@, self.values()),
            bytes@.len() % 8 == 0,
    {
        let ghost bits = self.writer.bits();
        let ghost w = self.bit_width as int;
        let ghost n = self.vals@.len() as int;
        let ghost padded_len = self.writer.padded().len();
        let ghost flushed_len = self.writer.flushed().len();
        proof {
            self.writer.lemma_padded_holds_bits();
        }
        let bytes = self.writer.close();
        proof {
            lemma_auto_spec_u64_to_from_le_bytes();
            assert(bytes@.take(9) == bytes@.take(flushed_len as int).take(9));
            assert(bytes@.subrange(0, 8) == self.header().subrange(0, 8));
            assert(self.header().subrange(0, 8) == spec_u64_to_le_bytes(self.min_value));
            assert(bytes@[8] == self.header()[8]);
            assert(column_min(bytes@) == self.min_value);
            assert(column_width(bytes@) == self.bit_width);
            assert forall|i: nat| i < n implies #[trigger] column_value(bytes@, i) == self.vals@[i as int] by {
                let delta = (self.vals@[i as int] - self.min_value) as u64;
                assert forall|j: nat| j < w implies #[trigger] bit_at(bytes@, 72 + i * w + j) == bit_of(delta, j) by {
                    assert(i * w + j < n * w) by (nonlinear_arith)
                        requires
                            0 <= i < n,
                            0 <= j < w,
                    ;
                    assert(bits[72 + i * self.bit_width + j] == bit_of(delta, j));
                }
                lemma_packed_is_low_bits(bytes@, 72 + i * w, w as nat, delta);
                if w < 64 {
                    lemma_small_fits(delta, (self.max_value - self.min_value) as u64, w as nat);
                }
                lemma_low_bits_of_small(delta, w as nat);
            }
        }
        bytes
    }
}

impl BitWriter {
    /// The padded bytes have room for the bits and no more than one byte
    /// beyond.
    pub proof fn lemma_padded_holds_bits(&self)
        requires
            self.wf(),
        ensures
            self.bits().len() <= 8 * self.padded().len(),
            8 * self.padded().len() < self.bits().len() + 8,
    {
    }
}

/// Reads one column.
pub struct U64FastFieldReader {
    data: Vec<u8>,
    min_value: u64,
    bit_width: u8,
    num_vals: usize,
}

impl U64FastFieldReader {
    /// The values of the column.
    pub closed spec fn values(&self) -> Seq<u64> {
        Seq::new(self.num_vals as nat, |i: int| column_value(self.data@, i as nat))
    }

    /// Validity: the bytes have room for the values.
    pub closed spec fn wf(&self) -> bool {
        &&& column_fits(self.data@, self.num_vals as nat)
        &&& self.min_value == column_min(self.data@)
        &&& self.bit_width == column_width(self.data@)
    }

    /// Opens the column of `num_vals` values that `data` holds.
    pub fn open(data: Vec<u8>, num_vals: usize) -> (res: Result<U64FastFieldReader, ColumnError>)
        ensures
            res is Ok <==> column_fits(data@, num_vals as nat),
            match res {
                Ok(reader) => reader.wf() && reader.values().len() == num_vals && forall|i: nat|
                    i < num_vals ==> #[trigger] reader.values()[i as int] == column_value(data@, i),
                Err(e) => e == (if data@.len() < 9 {
                    ColumnError::TruncatedHeader
                } else if column_width(data@) > 64 {
                    ColumnError::BadBitWidth
                } else {
                    ColumnError::TruncatedValues
                }),
            },
    {
        let len = data.len();
        if len < COLUMN_HEADER_LEN {
            return Err(ColumnError::TruncatedHeader);
        }
        let bit_width = data[8];
        if bit_width > 64 {
            return Err(ColumnError::BadBitWidth);
        }
        proof {
            assert(num_vals * bit_width <= 0xffff_ffff_ffff_ffff * 64) by (nonlinear_arith)
                requires
                    0 <= num_vals <= 0xffff_ffff_ffff_ffff,
                    0 <= bit_width <= 64,
            ;
        }
        let needed: u128 = 72 + (num_vals as u128) * (bit_width as u128);
        let room: u128 = 8 * (len as u128);
        if needed > room {
            return Err(ColumnError::TruncatedValues);
        }
        let min_value = u64_from_le_bytes(slice_subrange(data.as_slice(), 0, 8));
        Ok(U64FastFieldReader { data, min_value, bit_width, num_vals })
    }

    /// The number of values.
    pub fn num_vals(&self) -> (count: usize)
        ensures
            count == self.values().len(),
    {
        self.num_vals
    }

    /// The value of `doc`.
    pub fn get(&self, doc: usize) -> (value: u64)
        requires
            self.wf(),
            doc < self.values().len(),
        ensures
            value == self.values()[doc as int],
    {
        let width = self.bit_width as u128;
        proof {
            assert(doc * width + width <= self.num_vals * width) by (nonlinear_arith)
                requires
                    0 <= doc < self.num_vals,
                    0 <= width,
            ;
            assert(doc * width <= 0xffff_ffff_ffff_ffff * 64) by (nonlinear_arith)
                requires
                    0 <= doc <= 0xffff_ffff_ffff_ffff,
                    0 <= width <= 64,
            ;
        }
        let start: u128 = 72 + (doc as u128) * width;
        let len = self.data.len();
        let mut acc: u64 = 0;
        let mut j: u128 = 0;
        while j < width
            invariant
                j <= width <= 64,
                width == self.bit_width,
                len == self.data@.len(),
                start + width <= 8 * self.data@.len(),
                acc == packed_value(self.data@, start as int, j as nat),
            decreases width - j,
        {
            let pos = start + j;
            let byte = self.data[(pos / 8) as usize];
            let shift = (pos % 8) as u8;
            let bit = ((byte >> shift) & 1) as u64;
            proof {
                assert(bit == bit_at(self.data@, pos as int));
                assert(start + (j + 1) - 1 == pos);
            }
            acc = acc | (bit << (j as u64));
            j = j + 1;
        }
        self.min_value.wrapping_add(acc)
    }
}


/// A reader opened on a column that holds `values` reads `values` back.
pub proof fn lemma_column_round_trip(bytes: Seq<u8>, values: Seq<u64>, reader: U64FastFieldReader)
    requires
        column_holds(bytes, values),
        reader.values().len() == values.len(),
        forall|i: nat| i < values.len() ==> #[trigger] reader.values()[i as int] == column_value(bytes, i),
    ensures
        reader.values() == values,
{
    assert forall|i: int| 0 <= i < values.len() implies reader.values()[i] == values[i] by {
        assert(reader.values()[i as nat as int] == column_value(bytes, i as nat));
    }
    assert(reader.values() =~= values);
}

} // verus!
