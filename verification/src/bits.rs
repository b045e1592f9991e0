//! MSB-first bit packing over byte buffers.
//!
//! The frame codec serializes logical pixel levels as short bit groups; this
//! module provides the writer and reader for that stream together with a
//! bit-level mathematical model: `stream_bit` exposes a byte buffer as a
//! sequence of bits, `bits_val` is the value of a bit group, and `val_bits`
//! are the bits of a value.

use vstd::prelude::*;
use vstd::arithmetic::power2::*;
use vstd::arithmetic::div_mod::*;

verus! {

/// Bit `i` (0 = most significant) of byte `b`.
pub open spec fn byte_bit(b: u8, i: int) -> bool
    recommends
        0 <= i < 8,
{
    (b as int) / (pow2((7 - i) as nat) as int) % 2 == 1
}

/// Bit `i` of a byte buffer, MSB-first within each byte; false past the end.
pub open spec fn stream_bit(data: Seq<u8>, i: int) -> bool {
    if 0 <= i < 8 * data.len() {
        byte_bit(data[i / 8], i % 8)
    } else {
        false
    }
}

/// The value of the `k` bits of `data` that start at bit position `pos`,
/// MSB first; bits past the end of the buffer count as zero.
pub open spec fn bits_val(data: Seq<u8>, pos: int, k: nat) -> int
    decreases k,
{
    if k == 0 {
        0
    } else {
        2 * bits_val(data, pos, (k - 1) as nat) + (if stream_bit(data, pos + k - 1) {
            1int
        } else {
            0int
        })
    }
}

/// The low `k` bits of `v`, MSB first.
pub open spec fn val_bits(v: int, k: nat) -> Seq<bool> {
    Seq::new(k, |j: int| v / (pow2((k - 1 - j) as nat) as int) % 2 == 1)
}

pub proof fn lemma_bits_val_bound(data: Seq<u8>, pos: int, k: nat)
    ensures
        0 <= bits_val(data, pos, k) < pow2(k),
    decreases k,
{
    if k == 0 {
        assert(pow2(0) == 1) by {
            lemma2_to64();
        }
    } else {
        lemma_bits_val_bound(data, pos, (k - 1) as nat);
        lemma_pow2_unfold(k);
    }
}

/// A value written as bits is read back unchanged: if the bits of the stream
/// at positions `pos..pos + k` are the bits of `v`, then the `k`-bit group at
/// `pos` has value `v`.
pub proof fn lemma_bit_round_trip(data: Seq<u8>, pos: int, v: int, k: nat)
    requires
        0 <= v < pow2(k),
        forall|j: int| 0 <= j < k ==> stream_bit(data, pos + j) == val_bits(v, k)[j],
    ensures
        bits_val(data, pos, k) == v,
    decreases k,
{
    if k == 0 {
        assert(pow2(0) == 1) by {
            lemma2_to64();
        }
    } else {
        let km1 = (k - 1) as nat;
        lemma_pow2_unfold(k);
        assert forall|j: int| 0 <= j < km1 implies stream_bit(data, pos + j) == (#[trigger] val_bits(
            v / 2,
            km1,
        )[j]) by {
            assert(stream_bit(data, pos + j) == val_bits(v, k)[j]);
            lemma_pow2_unfold((k - 1 - j) as nat);
            lemma_pow2_pos((k - 2 - j) as nat);
            lemma_div_denominator(v, 2, pow2((k - 2 - j) as nat) as int);
            assert(v / 2 / (pow2((km1 - 1 - j) as nat) as int) == v / (pow2(
                (k - 1 - j) as nat,
            ) as int));
        }
        assert(0 <= v / 2 < pow2(km1)) by {
            lemma_pow2_pos(km1);
            lemma_div_is_ordered(v, 2 * pow2(km1) as int - 1, 2);
            assert((2 * pow2(km1) as int - 1) / 2 == pow2(km1) as int - 1) by {
                lemma_fundamental_div_mod_converse(
                    2 * pow2(km1) as int - 1,
                    2,
                    pow2(km1) as int - 1,
                    1,
                );
            }
            lemma_div_pos_is_pos(v, 2);
        }
        lemma_bit_round_trip(data, pos, v / 2, km1);
        assert(pow2(0) == 1) by {
            lemma2_to64();
        }
        lemma_div_basics(v);
        assert(stream_bit(data, pos + k - 1) == val_bits(v, k)[k - 1]);
        assert(val_bits(v, k)[k - 1] == (v % 2 == 1));
        assert(v % 2 == 0 || v % 2 == 1);
        assert(v == 2 * (v / 2) + v % 2) by {
            lemma_fundamental_div_mod(v, 2);
        }
    }
}

/// The bits of a read group are the bits of the stream it was read from.
pub proof fn lemma_bits_of_bits_val(data: Seq<u8>, pos: int, k: nat)
    ensures
        forall|j: int|
            0 <= j < k ==> val_bits(bits_val(data, pos, k), k)[j] == stream_bit(data, pos + j),
    decreases k,
{
    if k > 0 {
        let km1 = (k - 1) as nat;
        lemma_bits_val_bound(data, pos, k);
        lemma_bits_of_bits_val(data, pos, km1);
        let v = bits_val(data, pos, k);
        let vp = bits_val(data, pos, km1);
        let b: int = if stream_bit(data, pos + k - 1) {
            1
        } else {
            0
        };
        assert(v == 2 * vp + b);
        assert(pow2(0) == 1) by {
            lemma2_to64();
        }
        assert(v / 2 == vp && v % 2 == b) by {
            lemma_bits_val_bound(data, pos, km1);
            lemma_fundamental_div_mod_converse(v, 2, vp, b);
        }
        assert forall|j: int| 0 <= j < k implies (#[trigger] val_bits(v, k)[j]) == stream_bit(data, pos + j) by {
            if j < k - 1 {
                lemma_pow2_unfold((k - 1 - j) as nat);
                lemma_pow2_pos((k - 2 - j) as nat);
                lemma_div_denominator(v, 2, pow2((k - 2 - j) as nat) as int);
                assert(v / (pow2((k - 1 - j) as nat) as int) == vp / (pow2(
                    (km1 - 1 - j) as nat,
                ) as int));
                assert(val_bits(vp, km1)[j] == stream_bit(data, pos + j));
            } else {
                lemma_div_basics(v);
                assert(val_bits(v, k)[j] == (v % 2 == 1));
            }
        }
    }
}

/// Writer state: whole bytes already emitted, plus up to 7 pending bits held
/// in the low end of `current`.
pub struct BitWriter {
    bytes: Vec<u8>,
    current: u8,
    count: u8,
}

impl BitWriter {
    pub closed spec fn wf(self) -> bool {
        self.count < 8 && (self.current as int) < pow2(self.count as nat)
    }

    /// All bits written so far, in order.
    pub closed spec fn bits(self) -> Seq<bool> {
        Seq::new(8 * self.bytes@.len(), |i: int| stream_bit(self.bytes@, i)) + val_bits(
            self.current as int,
            self.count as nat,
        )
    }

    pub fn new() -> (r: Self)
        ensures
            r.wf(),
            r.bits() == Seq::<bool>::empty(),
    {
        let r = BitWriter { bytes: Vec::new(), current: 0, count: 0 };
        proof {
            lemma2_to64();
            assert(r.bits() =~= Seq::<bool>::empty());
        }
        r
    }

    fn push_bit(&mut self, bit: u8)
        requires
            old(self).wf(),
            bit < 2,
        ensures
            final(self).wf(),
            final(self).bits() == old(self).bits().push(bit == 1),
    {
        proof {
            lemma2_to64();
        }
        let cur = self.current * 2 + bit;
        proof {
            lemma_val_bits_extend(self.current as int, bit as int, self.count as nat);
        }
        if self.count == 7 {
            let ghost prev = *self;
            self.bytes.push(cur);
            self.current = 0;
            self.count = 0;
            proof {
                assert forall|i: int| 0 <= i < 8 * self.bytes@.len() implies stream_bit(
                    self.bytes@,
                    i,
                ) == prev.bits().push(bit == 1)[i] by {
                    lemma_div_mod_8(i, self.bytes@.len() as int);
                    if i < 8 * prev.bytes@.len() {
                        assert(self.bytes@[i / 8] == prev.bytes@[i / 8]);
                    } else {
                        assert(i / 8 == prev.bytes@.len() && i % 8 == i - 8 * prev.bytes@.len());
                        assert(self.bytes@[i / 8] == cur);
                        assert(byte_bit(cur, i % 8) == val_bits(cur as int, 8)[i % 8]);
                    }
                }
                assert(self.bits() =~= old(self).bits().push(bit == 1));
            }
        } else {
            self.current = cur;
            self.count = self.count + 1;
            proof {
                assert(self.bits() =~= old(self).bits().push(bit == 1));
            }
        }
    }

    /// Append the low `num_bits` bits of `value`, most significant first.
    pub fn write_bits(&mut self, value: u8, num_bits: u8)
        requires
            old(self).wf(),
            num_bits <= 8,
        ensures
            final(self).wf(),
            final(self).bits() == old(self).bits() + val_bits(value as int, num_bits as nat),
    {
        let mut i = num_bits;
        proof {
            assert(self.bits() =~= old(self).bits() + val_bits(value as int, num_bits as nat).take(
                0,
            ));
        }
        while i > 0
            invariant
                self.wf(),
                i <= num_bits,
                num_bits <= 8,
                self.bits() == old(self).bits() + val_bits(value as int, num_bits as nat).take(
                    num_bits - i,
                ),
            decreases i,
        {
            i = i - 1;
            let p = pow2_u8(i);
            let bit = (value / p) % 2;
            self.push_bit(bit);
            proof {
                let j = num_bits - 1 - i;
                assert(val_bits(value as int, num_bits as nat)[j as int] == (bit == 1));
                assert(val_bits(value as int, num_bits as nat).take(num_bits - i) =~= val_bits(
                    value as int,
                    num_bits as nat,
                ).take(num_bits - 1 - i).push(bit == 1));
            }
        }
        proof {
            assert(val_bits(value as int, num_bits as nat).take(num_bits as int) =~= val_bits(
                value as int,
                num_bits as nat,
            ));
        }
    }

    /// Emit any pending partial byte padded with zero bits, and return the
    /// packed buffer.
    pub fn finish(self) -> (r: Vec<u8>)
        requires
            self.wf(),
        ensures
            8 * r@.len() == self.bits().len() + pad_len(self.bits().len() as int),
            forall|i: int| 0 <= i < self.bits().len() ==> stream_bit(r@, i) == self.bits()[i],
            forall|i: int| self.bits().len() <= i ==> !stream_bit(r@, i),
    {
        proof {
            lemma2_to64();
        }
        let BitWriter { mut bytes, current, count } = self;
        let ghost wbits = self.bits();
        if count > 0 {
            let shift = pow2_u8(8 - count);
            proof {
                lemma_pow2_adds(count as nat, (8 - count) as nat);
                assert((current as int) * (shift as int) < pow2(8)) by (nonlinear_arith)
                    requires
                        (current as int) < pow2(count as nat),
                        shift as int == pow2((8 - count) as nat),
                        pow2(count as nat) * pow2((8 - count) as nat) == pow2(8),
                        shift >= 1,
                ;
            }
            let last = current * shift;
            let ghost prev = bytes@;
            bytes.push(last);
            proof {
                lemma_val_bits_pad(current as int, count as nat, (8 - count) as nat);
                assert forall|i: int| 0 <= i < 8 * bytes@.len() implies stream_bit(bytes@, i) == (
                if i < wbits.len() {
                    wbits[i]
                } else {
                    false
                }) by {
                    lemma_div_mod_8(i, bytes@.len() as int);
                    if i < 8 * prev.len() {
                        assert(bytes@[i / 8] == prev[i / 8]);
                    } else {
                        assert(i / 8 == prev.len() && i % 8 == i - 8 * prev.len());
                        assert(byte_bit(last, i % 8) == val_bits(last as int, 8)[i % 8]);
                        assert(val_bits(last as int, 8) == val_bits(current as int, count as nat)
                            + val_bits(0, (8 - count) as nat));
                    }
                }
            }
        } else {
            proof {
                assert(wbits =~= Seq::new(8 * bytes@.len(), |i: int| stream_bit(bytes@, i)));
            }
        }
        bytes
    }
}

/// Bits of zero padding needed to reach a whole byte.
pub open spec fn pad_len(bits: int) -> int {
    if bits % 8 == 0 {
        0
    } else {
        8 - bits % 8
    }
}

/// Extending a bit group at the low end: the bits of `2 * c + b` are the bits
/// of `c` followed by `b`.
proof fn lemma_val_bits_extend(c: int, b: int, n: nat)
    requires
        0 <= c,
        0 <= b < 2,
    ensures
        val_bits(2 * c + b, n + 1) == val_bits(c, n).push(b == 1),
{
    assert(pow2(0) == 1) by {
        lemma2_to64();
    }
    assert forall|j: int| 0 <= j < n + 1 implies (#[trigger] val_bits(2 * c + b, n + 1)[j]) == val_bits(
        c,
        n,
    ).push(b == 1)[j] by {
        if j < n {
            lemma_pow2_unfold((n - j) as nat);
            lemma_pow2_pos((n - 1 - j) as nat);
            lemma_div_denominator(2 * c + b, 2, pow2((n - 1 - j) as nat) as int);
            assert((2 * c + b) / 2 == c) by {
                lemma_fundamental_div_mod_converse(2 * c + b, 2, c, b);
            }
            assert((2 * c + b) / (pow2((n - j) as nat) as int) == c / (pow2((n - 1 - j) as nat) as int));
        } else {
            assert((2 * c + b) % 2 == b) by {
                lemma_fundamental_div_mod_converse(2 * c + b, 2, c, b);
            }
            lemma_div_basics(2 * c + b);
        }
    }
    assert(val_bits(2 * c + b, n + 1) =~= val_bits(c, n).push(b == 1));
}

/// Shifting a bit group left pads it with zero bits at the low end.
proof fn lemma_val_bits_pad(c: int, n: nat, m: nat)
    requires
        0 <= c,
    ensures
        val_bits(c * pow2(m) as int, n + m) == val_bits(c, n) + val_bits(0, m),
    decreases m,
{
    if m == 0 {
        assert(pow2(0) == 1) by {
            lemma2_to64();
        }
        assert(val_bits(c * 1, n) =~= val_bits(c, n) + val_bits(0, 0));
    } else {
        let mm1 = (m - 1) as nat;
        lemma_val_bits_pad(c, n, mm1);
        lemma_pow2_unfold(m);
        assert(c * pow2(m) as int == 2 * (c * pow2(mm1) as int) + 0) by (nonlinear_arith)
            requires
                pow2(m) == 2 * pow2(mm1),
        ;
        lemma_pow2_pos(mm1);
        assert(0 <= c * pow2(mm1) as int) by (nonlinear_arith)
            requires
                0 <= c,
                pow2(mm1) as int >= 1,
        ;
        lemma_val_bits_extend(c * pow2(mm1) as int, 0, (n + mm1) as nat);
        assert(val_bits(0, mm1).push(false) =~= val_bits(0, m)) by {
            assert forall|j: int| 0 <= j < m implies (#[trigger] val_bits(0, m)[j]) == false by {
                lemma_pow2_pos((m - 1 - j) as nat);
            }
            assert forall|j: int| 0 <= j < mm1 implies (#[trigger] val_bits(0, mm1)[j]) == false by {
                lemma_pow2_pos((mm1 - 1 - j) as nat);
            }
        }
        assert(val_bits(c, n) + val_bits(0, mm1) + val_bits(0, 1).push(false).take(1) =~= val_bits(
            c,
            n,
        ) + val_bits(0, m));
        assert((val_bits(c, n) + val_bits(0, mm1)).push(false) =~= val_bits(c, n) + val_bits(0, m));
    }
}

/// For a bit index inside a buffer of `n` bytes, its byte and offset.
pub proof fn lemma_div_mod_8(i: int, n: int)
    requires
        0 <= i < 8 * n,
    ensures
        0 <= i / 8 < n,
        i % 8 == i - 8 * (i / 8),
        i / 8 == (i - i % 8) / 8,
    decreases n,
{
    lemma_fundamental_div_mod(i, 8);
    assert(0 <= i / 8 < n) by (nonlinear_arith)
        requires
            i == 8 * (i / 8) + i % 8,
            0 <= i % 8 < 8,
            0 <= i < 8 * n,
    ;
    assert((i - i % 8) == 8 * (i / 8));
    assert((8 * (i / 8)) / 8 == i / 8) by {
        lemma_div_multiples_vanish(i / 8, 8);
    }
}

fn pow2_u8(e: u8) -> (r: u8)
    requires
        e <= 7,
    ensures
        r as int == pow2(e as nat),
        r >= 1,
{
    proof {
        lemma2_to64();
    }
    if e == 0 {
        1
    } else if e == 1 {
        2
    } else if e == 2 {
        4
    } else if e == 3 {
        8
    } else if e == 4 {
        16
    } else if e == 5 {
        32
    } else if e == 6 {
        64
    } else {
        128
    }
}

/// Reader state: a bit cursor over a borrowed byte buffer.
pub struct BitReader<'a> {
    data: &'a [u8],
    byte_pos: usize,
    bit_pos: u8,
}

impl<'a> BitReader<'a> {
    pub closed spec fn wf(self) -> bool {
        &&& self.bit_pos < 8
    &&& self.byte_pos <= self.data@.len()
    &&& (self.byte_pos == self.data@.len() ==> self.bit_pos == 0)
    }

    pub closed spec fn pos(self) -> int {
        8 * self.byte_pos + self.bit_pos
    }

    pub closed spec fn source(self) -> Seq<u8> {
        self.data@
    }

    pub fn new(data: &'a [u8]) -> (r: Self)
        ensures
            r.wf(),
            r.pos() == 0,
            r.source() == data@,
    {
        BitReader { data, byte_pos: 0, bit_pos: 0 }
    }

    /// Read `num_bits` bits MSB first; bits past the end of the buffer read
    /// as zero.
    pub fn read_bits(&mut self, num_bits: u8) -> (r: u8)
        requires
            old(self).wf(),
            num_bits <= 8,
        ensures
            final(self).wf(),
            final(self).source() == old(self).source(),
            r as int == bits_val(old(self).source(), old(self).pos(), num_bits as nat),
            final(self).pos() == if old(self).pos() + num_bits <= 8 * old(self).source().len() {
                old(self).pos() + num_bits
            } else {
                8 * old(self).source().len() as int
            },
    {
        let ghost src = self.data@;
        let ghost pos0 = self.pos();
        let data_len = self.data.len();
        let mut value: u8 = 0;
        let mut j: u8 = 0;
        while j < num_bits
            invariant
                self.wf(),
                j <= num_bits,
                num_bits <= 8,
                self.data@ == src,
                data_len == src.len(),
                value as int == bits_val(src, pos0, j as nat),
                self.pos() == if pos0 + j <= 8 * src.len() {
                    pos0 + j
                } else {
                    8 * src.len() as int
                },
            decreases num_bits - j,
        {
            proof {
                lemma_bits_val_bound(src, pos0, j as nat);
                lemma2_to64();
                lemma_pow2_strictly_increases(j as nat, 8);
            }
            let bit: u8;
            if self.byte_pos < data_len {
                let b = self.data[self.byte_pos];
                let p = pow2_u8(7 - self.bit_pos);
                bit = (b / p) % 2;
                proof {
                    assert(self.pos() == pos0 + j);
                    lemma_fundamental_div_mod_converse(
                        self.pos(),
                        8,
                        self.byte_pos as int,
                        self.bit_pos as int,
                    );
                    assert(stream_bit(src, pos0 + j) == byte_bit(b, self.bit_pos as int));
                    assert((bit == 1) == byte_bit(b, self.bit_pos as int));
                }
                if self.bit_pos == 7 {
                    self.bit_pos = 0;
                    self.byte_pos = self.byte_pos + 1;
                } else {
                    self.bit_pos = self.bit_pos + 1;
                }
            } else {
                bit = 0;
                proof {
                    assert(self.pos() == 8 * src.len());
                    assert(pos0 + j >= 8 * src.len());
                    assert(!stream_bit(src, pos0 + j));
                }
            }
            value = value * 2 + bit;
            j = j + 1;
            proof {
                assert(value as int == bits_val(src, pos0, j as nat));
            }
        }
        value
    }
}


/// The bit offset at which the `j`-th of a sequence of writes begins: the
/// sum of the widths written before it.
pub open spec fn write_offset(ws: Seq<(u8, u8)>, j: int) -> int
    decreases j,
{
    if j <= 0 {
        0
    } else {
        write_offset(ws, j - 1) + ws[j - 1].1
    }
}

/// The bits that a sequence of `(value, width)` writes appends, in order.
pub open spec fn writes_bits(ws: Seq<(u8, u8)>) -> Seq<bool>
    decreases ws.len(),
{
    if ws.len() == 0 {
        Seq::<bool>::empty()
    } else {
        writes_bits(ws.drop_last()) + val_bits(ws.last().0 as int, ws.last().1 as nat)
    }
}

/// Every write pair has a width from 1 to 8 and a value below two to it.
pub open spec fn writes_valid(ws: Seq<(u8, u8)>) -> bool {
    forall|x: int|
        0 <= x < ws.len() ==> 1 <= (#[trigger] ws[x]).1 <= 8 && (ws[x].0 as int) < pow2(
            ws[x].1 as nat,
        )
}

/// A write's offset does not depend on the writes after it.
proof fn lemma_write_offset_prefix(ws: Seq<(u8, u8)>, j: int)
    requires
        0 <= j < ws.len(),
    ensures
        write_offset(ws.drop_last(), j) == write_offset(ws, j),
    decreases j,
{
    if j > 0 {
        lemma_write_offset_prefix(ws, j - 1);
        assert(ws.drop_last()[j - 1] == ws[j - 1]);
    }
}

/// The written bits end where the offset past the last write lies.
proof fn lemma_writes_bits_len(ws: Seq<(u8, u8)>)
    ensures
        writes_bits(ws).len() == write_offset(ws, ws.len() as int),
        writes_bits(ws).len() >= 0,
    decreases ws.len(),
{
    if ws.len() > 0 {
        let dl = ws.drop_last();
        lemma_writes_bits_len(dl);
        lemma_write_offset_prefix(ws, ws.len() - 1);
    }
}

/// Bit `t` of write `j` sits at stream position `write_offset(ws, j) + t`.
proof fn lemma_writes_bits_at(ws: Seq<(u8, u8)>, j: int, t: int)
    requires
        writes_valid(ws),
        0 <= j < ws.len(),
        0 <= t < ws[j].1,
    ensures
        0 <= write_offset(ws, j),
        write_offset(ws, j) + t < writes_bits(ws).len(),
        writes_bits(ws)[write_offset(ws, j) + t] == val_bits(ws[j].0 as int, ws[j].1 as nat)[t],
    decreases ws.len(),
{
    lemma_writes_bits_len(ws);
    let dl = ws.drop_last();
    lemma_writes_bits_len(dl);
    lemma_write_offset_prefix(ws, j);
    if j == ws.len() - 1 {
        assert(write_offset(ws, j) == writes_bits(dl).len());
    } else {
        assert(writes_valid(dl)) by {
            assert forall|x: int| 0 <= x < dl.len() implies 1 <= (#[trigger] dl[x]).1 <= 8 && (
            dl[x].0 as int) < pow2(dl[x].1 as nat) by {
                assert(dl[x] == ws[x]);
            }
        }
        assert(dl[j] == ws[j]);
        lemma_writes_bits_at(dl, j, t);
    }
}

/// Bit-stream round trip over a whole write sequence: pack any sequence of
/// `(value, width)` writes into a byte buffer (as `BitWriter::finish`
/// produces, its bits agreeing with the written bits), and reading each
/// width back at its offset returns the value written there.
pub proof fn lemma_bit_stream_round_trip(bytes: Seq<u8>, ws: Seq<(u8, u8)>, j: int)
    requires
        writes_valid(ws),
        forall|i: int|
            0 <= i < writes_bits(ws).len() ==> #[trigger] stream_bit(bytes, i) == writes_bits(
                ws,
            )[i],
        0 <= j < ws.len(),
    ensures
        bits_val(bytes, write_offset(ws, j), ws[j].1 as nat) == ws[j].0,
{
    let off = write_offset(ws, j);
    let v = ws[j].0 as int;
    let k = ws[j].1 as nat;
    assert forall|t: int| 0 <= t < k implies stream_bit(bytes, off + t) == val_bits(v, k)[t] by {
        lemma_writes_bits_at(ws, j, t);
    }
    lemma_writes_bits_at(ws, j, 0);
    lemma_bit_round_trip(bytes, off, v, k);
}

} // verus!
