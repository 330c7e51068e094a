//! A first-in first-out queue of bits that packs variable-width unsigned
//! integers, most significant bit first, and hands them out again as integers
//! of a requested width or as whole bytes.
use bitvec::order::Msb0;
use bitvec::vec::BitVec;
use vstd::prelude::*;
use vstd::arithmetic::power2::pow2;
use vstd::arithmetic::power2::lemma_pow2_unfold;

verus! {

/// Storage for the queue: a `BitVec` of bytes in most-significant-first
/// order, which Verus cannot declare since its bounds are outside traits.
#[verifier::external_body]
pub struct BitCells {
    bits: BitVec<u8, Msb0>,
}

/// The bits that the storage holds, first bit first.
pub uninterp spec fn bit_contents(v: BitCells) -> Seq<bool>;

/// The most bits that the queue holds: `BitVec`'s own limit, `usize::MAX >> 3`,
/// on a target with 32-bit `usize`, and below it on wider ones.
pub const MAX_QUEUED_BITS: usize = 0x1FFF_FFFF;

/// Relies on `BitVec::new`: a new bit vector is empty.
#[verifier::external_body]
fn bitvec_new() -> (r: BitCells)
    ensures
        bit_contents(r) == Seq::<bool>::empty(),
{
    BitCells { bits: BitVec::new() }
}

/// Relies on `BitVec::len`: the number of bits held.
#[verifier::external_body]
fn bitvec_len(v: &BitCells) -> (r: usize)
    ensures
        r == bit_contents(*v).len(),
{
    v.bits.len()
}

/// Relies on `BitVec::push`: appends one bit at the end. It panics only past
/// a length far above `MAX_QUEUED_BITS`.
#[verifier::external_body]
fn bitvec_push(v: &mut BitCells, bit: bool)
    requires
        bit_contents(*old(v)).len() < MAX_QUEUED_BITS,
    ensures
        bit_contents(*final(v)) == bit_contents(*old(v)).push(bit),
{
    v.bits.push(bit)
}

/// Relies on indexing a `BitVec`: the bit at position `i`.
#[verifier::external_body]
fn bitvec_get(v: &BitCells, i: usize) -> (r: bool)
    requires
        i < bit_contents(*v).len(),
    ensures
        r == bit_contents(*v)[i as int],
{
    v.bits[i]
}

/// Relies on `BitVec::split_off`: keeps the first `at` bits and returns the
/// rest. It panics only when `at` exceeds the length.
#[verifier::external_body]
fn bitvec_split_off(v: &mut BitCells, at: usize) -> (r: BitCells)
    requires
        at <= bit_contents(*old(v)).len(),
    ensures
        bit_contents(*final(v)) == bit_contents(*old(v)).take(at as int),
        bit_contents(r) == bit_contents(*old(v)).skip(at as int),
{
    BitCells { bits: v.bits.split_off(at) }
}

/// The `w` low bits of `v`, most significant first.
pub open spec fn bits_be(v: u32, w: nat) -> Seq<bool> {
    Seq::new(w, |i: int| (v >> ((w - 1 - i) as u32)) & 1u32 == 1u32)
}

/// The unsigned integer that a sequence of bits spells, most significant
/// first.
pub open spec fn value_be(s: Seq<bool>) -> nat
    decreases s.len(),
{
    if s.len() == 0 {
        0
    } else {
        2 * value_be(s.drop_last()) + if s.last() {
            1nat
        } else {
            0nat
        }
    }
}

/// The bytes that a sequence of bits fills, eight bits to a byte, the last
/// byte completed with zero bits in its low positions.
pub open spec fn pack_bytes(s: Seq<bool>) -> Seq<u8>
    decreases s.len(),
{
    if s.len() == 0 {
        Seq::empty()
    } else if s.len() < 8 {
        seq![value_be(s + Seq::new((8 - s.len()) as nat, |i: int| false)) as u8]
    } else {
        seq![value_be(s.take(8)) as u8] + pack_bytes(s.skip(8))
    }
}

/// The bits of a sequence of bytes, eight to a byte, most significant first.
pub open spec fn unpack_bytes(b: Seq<u8>) -> Seq<bool>
    decreases b.len(),
{
    if b.len() == 0 {
        Seq::empty()
    } else {
        unpack_bytes(b.drop_last()) + bits_be(b.last() as u32, 8)
    }
}

/// Powers of two grow with the exponent.
pub proof fn lemma_pow2_le(a: nat, b: nat)
    requires
        a <= b,
    ensures
        pow2(a) <= pow2(b),
{
    if a < b {
        vstd::arithmetic::power2::lemma_pow2_strictly_increases(a, b);
    }
}

/// A value spelled by `n` bits is below `2^n`.
pub proof fn lemma_value_be_bound(s: Seq<bool>)
    ensures
        value_be(s) < pow2(s.len()),
    decreases s.len(),
{
    if s.len() > 0 {
        lemma_value_be_bound(s.drop_last());
        lemma_pow2_unfold(s.len());
    } else {
        vstd::arithmetic::power2::lemma2_to64();
    }
}

proof fn lemma_shift_step(v: u32, s: u32)
    requires
        1 <= s <= 32,
    ensures
        (v >> (s - 1) as u32) as nat == 2 * ((v >> s) as nat) + (if (v >> (s - 1) as u32) & 1u32
            == 1u32 {
            1nat
        } else {
            0nat
        }),
{
    assert((v >> (s - 1) as u32) == ((v >> s) << 1u32) | ((v >> (s - 1) as u32) & 1u32))
        by (bit_vector)
        requires
            1 <= s <= 32,
    ;
    assert((v >> s) < 0x8000_0000u32) by (bit_vector)
        requires
            1 <= s <= 32,
    ;
    let a = v >> s;
    let b = (v >> (s - 1) as u32) & 1u32;
    assert(((v >> (s - 1) as u32) & 1u32) <= 1u32) by (bit_vector);
    assert(a < 0x8000_0000u32 && b <= 1u32 ==> ((a << 1u32) | b) == 2 * a + b) by (bit_vector);
}

/// The first `i` bits of `bits_be(v, w)` spell `v` without its `w - i` low
/// bits, when `v` fits in `w` bits.
proof fn lemma_bits_be_prefix(v: u32, w: nat, i: nat)
    requires
        1 <= w <= 32,
        i <= w,
        (v as nat) < pow2(w),
    ensures
        value_be(bits_be(v, w).take(i as int)) == (v >> ((w - i) as u32)) as nat,
    decreases i,
{
    if i == 0 {
        assert(bits_be(v, w).take(0) =~= Seq::<bool>::empty());
        let ww = w as u32;
        vstd::arithmetic::power2::lemma2_to64();
        assert(v >> ww == 0) by {
            assert(ww == 32u32 ==> v >> ww == 0) by (bit_vector);
            if ww < 32 {
                vstd::bits::lemma_u32_pow2_no_overflow(w);
                assert(v < (1u32 << ww)) by {
                    vstd::bits::lemma_u32_shl_is_mul(1, ww);
                }
                assert(ww < 32u32 && v < (1u32 << ww) ==> v >> ww == 0) by (bit_vector);
            }
        }
    } else {
        lemma_bits_be_prefix(v, w, (i - 1) as nat);
        let s = bits_be(v, w).take(i as int);
        assert(s.drop_last() =~= bits_be(v, w).take(i - 1));
        lemma_shift_step(v, (w - i + 1) as u32);
    }
}

/// A value pushed at its own width is read back whole.
pub proof fn lemma_value_of_bits_be(v: u32, w: nat)
    requires
        1 <= w <= 32,
        (v as nat) < pow2(w),
    ensures
        value_be(bits_be(v, w)) == v as nat,
{
    lemma_bits_be_prefix(v, w, w);
    assert(bits_be(v, w).take(w as int) =~= bits_be(v, w));
    assert(v >> 0u32 == v) by (bit_vector);
}

/// A queue of bits backed by a `BitVec`: pushed integers enter high bit
/// first, and popped integers take the first bits as their high bits.
pub struct BitBuffer {
    bits: BitCells,
}

impl View for BitBuffer {
    type V = Seq<bool>;

    closed spec fn view(&self) -> Seq<bool> {
        bit_contents(self.bits)
    }
}

impl BitBuffer {
    /// An empty queue.
    pub fn new() -> (r: BitBuffer)
        ensures
            r@ == Seq::<bool>::empty(),
    {
        BitBuffer { bits: bitvec_new() }
    }

    /// The number of bits queued.
    pub fn len(&self) -> (r: usize)
        ensures
            r == self@.len(),
    {
        bitvec_len(&self.bits)
    }

    /// Appends the `width` low bits of `value`, its bit `width - 1` first.
    pub fn push_bits(&mut self, value: u32, width: u8)
        requires
            width <= 32,
            old(self)@.len() + width <= MAX_QUEUED_BITS,
        ensures
            final(self)@ == old(self)@ + bits_be(value, width as nat),
    {
        let ghost start = self@;
        let mut i: u8 = 0;
        while i < width
            invariant
                i <= width <= 32,
                start.len() + width <= MAX_QUEUED_BITS,
                self@ == start + bits_be(value, width as nat).take(i as int),
            decreases width - i,
        {
            let shift: u32 = (width - 1 - i) as u32;
            let bit = (value >> shift) & 1u32 == 1u32;
            bitvec_push(&mut self.bits, bit);
            i = i + 1;
            assert(self@ =~= start + bits_be(value, width as nat).take(i as int));
        }
        assert(bits_be(value, width as nat).take(width as int) =~= bits_be(value, width as nat));
    }

    /// Takes the first `width` bits as an integer, the first bit highest;
    /// `None`, and the queue unchanged, when fewer are queued.
    pub fn pop_bits(&mut self, width: u8) -> (r: Option<u32>)
        requires
            width <= 32,
        ensures
            old(self)@.len() >= width ==> r == Some(value_be(old(self)@.take(width as int)) as u32)
                && final(self)@ == old(self)@.skip(width as int),
            old(self)@.len() < width ==> r is None && final(self)@ == old(self)@,
    {
        let len = bitvec_len(&self.bits);
        if len < width as usize {
            return None;
        }
        let rest = bitvec_split_off(&mut self.bits, width as usize);
        let ghost head = self@;
        let mut acc: u32 = 0;
        let mut i: usize = 0;
        while i < width as usize
            invariant
                i <= width <= 32,
                head.len() == width,
                bit_contents(self.bits) == head,
                acc as nat == value_be(head.take(i as int)),
            decreases width - i,
        {
            proof {
                lemma_value_be_bound(head.take(i as int));
                vstd::arithmetic::power2::lemma_pow2_strictly_increases(i as nat, 32);
                vstd::arithmetic::power2::lemma2_to64();
            }
            let bit = bitvec_get(&self.bits, i);
            let b: u32 = if bit {
                1
            } else {
                0
            };
            acc = acc * 2 + b;
            i = i + 1;
            assert(head.take(i as int).drop_last() =~= head.take(i - 1));
        }
        self.bits = rest;
        assert(head.take(width as int) =~= head);
        Some(acc)
    }

    /// Takes the first eight bits as a byte; `None`, and the queue
    /// unchanged, when fewer are queued.
    pub fn pop_byte(&mut self) -> (r: Option<u8>)
        ensures
            old(self)@.len() >= 8 ==> r == Some(value_be(old(self)@.take(8)) as u8) && final(self)@
                == old(self)@.skip(8),
            old(self)@.len() < 8 ==> r is None && final(self)@ == old(self)@,
    {
        match self.pop_bits(8) {
            Some(v) => {
                proof {
                    lemma_value_be_bound(old(self)@.take(8));
                    vstd::arithmetic::power2::lemma2_to64();
                }
                Some(v as u8)
            },
            None => None,
        }
    }

    /// Empties the queue into bytes, the last one completed with zero bits.
    pub fn drain_remaining_as_bytes(&mut self) -> (r: Vec<u8>)
        requires
            old(self)@.len() + 8 <= MAX_QUEUED_BITS,
        ensures
            r@ == pack_bytes(old(self)@),
            final(self)@ == Seq::<bool>::empty(),
    {
        let mut out: Vec<u8> = Vec::new();
        let mut len = self.len();
        while len >= 8
            invariant
                len == self@.len(),
                self@.len() + 8 <= MAX_QUEUED_BITS,
                out@ + pack_bytes(self@) == pack_bytes(old(self)@),
            decreases len,
        {
            let byte = self.pop_byte();
            if let Some(b) = byte {
                out.push(b);
            }
            assert(out@ + pack_bytes(self@) =~= pack_bytes(old(self)@));
            len = self.len();
        }
        if len > 0 {
            let ghost before = self@;
            let pad: u8 = (8 - len) as u8;
            self.push_bits(0, pad);
            proof {
                assert forall|i: int| 0 <= i < pad implies !#[trigger] bits_be(0, pad as nat)[i] by {
                    let k = (pad - 1 - i) as u32;
                    assert((0u32 >> k) & 1u32 == 0u32) by (bit_vector);
                }
                assert(bits_be(0, pad as nat) =~= Seq::new((8 - before.len()) as nat, |i: int| false));
            }
            let ghost out_before = out@;
            let ghost padded = before + Seq::new((8 - before.len()) as nat, |i: int| false);
            assert(self@.take(8) =~= padded);
            let byte = self.pop_byte();
            if let Some(b) = byte {
                out.push(b);
            }
            assert(out@ =~= out_before + seq![value_be(padded) as u8]);
            assert(self@ =~= Seq::<bool>::empty());
            assert(pack_bytes(Seq::<bool>::empty()) == Seq::<u8>::empty());
            assert(out@ =~= pack_bytes(old(self)@));
        } else {
            assert(out@ =~= pack_bytes(old(self)@));
        }
        out
    }
}

/// The number of bits that `n` takes, leading zeros left out.
pub open spec fn bit_width(n: nat) -> nat
    decreases n,
{
    if n == 0 {
        0
    } else {
        1 + bit_width(n / 2)
    }
}

/// A number at least `2^k` takes more than `k` bits.
pub proof fn lemma_bit_width_lower(n: nat, k: nat)
    requires
        n >= pow2(k),
    ensures
        bit_width(n) >= k + 1,
    decreases k,
{
    vstd::arithmetic::power2::lemma_pow2_pos(k);
    if k > 0 {
        lemma_pow2_unfold(k);
        lemma_bit_width_lower(n / 2, (k - 1) as nat);
    }
}

/// The bits of a run of bytes split where the run does.
pub proof fn lemma_unpack_append(a: Seq<u8>, b: Seq<u8>)
    ensures
        unpack_bytes(a + b) == unpack_bytes(a) + unpack_bytes(b),
    decreases b.len(),
{
    if b.len() == 0 {
        assert(a + b =~= a);
        assert(unpack_bytes(a) + unpack_bytes(b) =~= unpack_bytes(a));
    } else {
        lemma_unpack_append(a, b.drop_last());
        assert((a + b).drop_last() =~= a + b.drop_last());
        assert(unpack_bytes(a) + unpack_bytes(b) =~= unpack_bytes(a) + unpack_bytes(b.drop_last())
            + bits_be(b.last() as u32, 8));
    }
}

/// The number of bits in `length` without its leading zeros.
pub fn get_bits_count(length: u32) -> (r: usize)
    ensures
        r == bit_width(length as nat),
        r <= 32,
{
    let mut rest: u32 = length;
    let mut count: usize = 0;
    proof {
        vstd::arithmetic::power2::lemma2_to64();
    }
    while rest > 0
        invariant
            count + bit_width(rest as nat) == bit_width(length as nat),
            count <= 32,
            (rest as nat) < pow2((32 - count) as nat),
        decreases rest,
    {
        proof {
            vstd::arithmetic::power2::lemma2_to64();
            if count < 32 {
                lemma_pow2_unfold((32 - count) as nat);
            }
        }
        rest = rest / 2;
        count = count + 1;
    }
    count
}

/// Pushing `v` at width `w` onto an empty queue and popping `w` bits gives
/// back `v` and leaves the queue empty, for every `v` below `2^w`.
pub proof fn lemma_push_then_pop(v: u32, w: nat)
    requires
        1 <= w <= 32,
        (v as nat) < pow2(w),
    ensures
        ({
            let q = Seq::<bool>::empty() + bits_be(v, w);
            &&& q.len() >= w
            &&& value_be(q.take(w as int)) == v as nat
            &&& q.skip(w as int) == Seq::<bool>::empty()
        }),
{
    let q = Seq::<bool>::empty() + bits_be(v, w);
    assert(q =~= bits_be(v, w));
    assert(q.take(w as int) =~= bits_be(v, w));
    assert(q.skip(w as int) =~= Seq::<bool>::empty());
    lemma_value_of_bits_be(v, w);
}

/// Two values pushed in turn come out in the same order, each whole, when
/// each fits in its width.
pub proof fn lemma_push_pop_order(a: u32, wa: nat, b: u32, wb: nat)
    requires
        1 <= wa <= 32,
        1 <= wb <= 32,
        (a as nat) < pow2(wa),
        (b as nat) < pow2(wb),
    ensures
        ({
            let q = Seq::<bool>::empty() + bits_be(a, wa) + bits_be(b, wb);
            &&& value_be(q.take(wa as int)) == a as nat
            &&& value_be(q.skip(wa as int).take(wb as int)) == b as nat
            &&& q.skip(wa as int).skip(wb as int) == Seq::<bool>::empty()
        }),
{
    let q = Seq::<bool>::empty() + bits_be(a, wa) + bits_be(b, wb);
    assert(q.take(wa as int) =~= bits_be(a, wa));
    assert(q.skip(wa as int).take(wb as int) =~= bits_be(b, wb));
    assert(q.skip(wa as int).skip(wb as int) =~= Seq::<bool>::empty());
    lemma_value_of_bits_be(a, wa);
    lemma_value_of_bits_be(b, wb);
}

} // verus!
