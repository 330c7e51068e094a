//! The encoder: a state machine over input bytes that emits the code of the
//! longest known prefix whenever a byte ends the match, widens codes as the
//! dictionary grows, and resets the dictionary when it is full.
use crate::bitbuf::{lemma_pow2_le, bit_width, bits_be, get_bits_count, pack_bytes, BitBuffer, MAX_QUEUED_BITS};
use crate::dict::{code_of, initial_entries, lemma_initial_entries_distinct, CompressDictionary};
use crate::{valid_max_bits, LzwError};
use vstd::arithmetic::power2::pow2;
use vstd::prelude::*;

verus! {

/// The encoder's state: its dictionary, the pending match, the current code
/// width, the greatest width, and the code bits emitted so far.
pub struct EncState {
    pub dict: Seq<Seq<u8>>,
    pub prev: Seq<u8>,
    pub width: nat,
    pub max_bits: nat,
    pub bits: Seq<bool>,
}

/// The state before any input.
pub open spec fn enc_init(max_bits: nat) -> EncState {
    EncState {
        dict: initial_entries(),
        prev: Seq::empty(),
        width: 8,
        max_bits,
        bits: Seq::empty(),
    }
}

/// One input byte. A match that still names an entry grows; otherwise the
/// pending match's code is emitted at the current width and the byte starts
/// the next match. The grown match then becomes a new entry, unless the
/// dictionary is full: it then goes back to its first 256 entries, exactly
/// as at the start, and the width back to 8.
pub open spec fn enc_step(st: EncState, c: u8) -> EncState {
    let ext = st.prev.push(c);
    if st.dict.contains(ext) {
        EncState { prev: ext, ..st }
    } else {
        let n = st.dict.len();
        let bits = st.bits + bits_be(code_of(st.dict, st.prev) as u32, st.width);
        if n + 1 == pow2(st.max_bits) {
            EncState { dict: initial_entries(), prev: seq![c], width: 8, bits, ..st }
        } else {
            EncState { dict: st.dict.push(ext), prev: seq![c], width: bit_width(n), bits, ..st }
        }
    }
}

/// The state after a run of input bytes.
pub open spec fn enc_feed(st: EncState, input: Seq<u8>) -> EncState
    decreases input.len(),
{
    if input.len() == 0 {
        st
    } else {
        enc_step(enc_feed(st, input.drop_last()), input.last())
    }
}

/// All code bits once the input has ended: the pending match, if any, is
/// emitted last.
pub open spec fn enc_finish(st: EncState) -> Seq<bool> {
    if st.prev.len() == 0 {
        st.bits
    } else {
        st.bits + bits_be(code_of(st.dict, st.prev) as u32, st.width)
    }
}

/// The compressed form of `input`: its code bits, packed into bytes.
pub open spec fn lzw_encode(input: Seq<u8>, max_bits: nat) -> Seq<u8> {
    pack_bytes(enc_finish(enc_feed(enc_init(max_bits), input)))
}

/// What holds of the encoder's state between bytes.
pub open spec fn enc_wf(st: EncState) -> bool {
    &&& valid_max_bits(st.max_bits)
    &&& st.width <= 32
    &&& 256 <= st.dict.len() < pow2(st.max_bits)
    &&& st.dict.take(256) == initial_entries()
    &&& st.dict.no_duplicates()
    &&& (st.prev.len() == 0 || st.dict.contains(st.prev))
}

/// Packing bits splits at any whole byte.
pub proof fn lemma_pack_append(a: Seq<bool>, b: Seq<bool>)
    requires
        a.len() % 8 == 0,
    ensures
        pack_bytes(a + b) == pack_bytes(a) + pack_bytes(b),
    decreases a.len(),
{
    if a.len() == 0 {
        assert(a + b =~= b);
        assert(pack_bytes(a) == Seq::<u8>::empty());
        assert(pack_bytes(a) + pack_bytes(b) =~= pack_bytes(b));
    } else {
        lemma_pack_append(a.skip(8), b);
        assert((a + b).take(8) =~= a.take(8));
        assert((a + b).skip(8) =~= a.skip(8) + b);
        assert(pack_bytes(a) + pack_bytes(b) =~= seq![crate::bitbuf::value_be(a.take(8)) as u8]
            + (pack_bytes(a.skip(8)) + pack_bytes(b)));
    }
}

/// The encoder: it reads bytes in chunks and writes whole bytes as soon as
/// they are complete; `finish` writes the rest.
pub struct Compressor {
    dict: CompressDictionary,
    bits_count: u8,
    max_bits: u8,
    prev: Vec<u8>,
    bit_buf: BitBuffer,
}

impl View for Compressor {
    type V = EncState;

    closed spec fn view(&self) -> EncState {
        EncState {
            dict: self.dict@,
            prev: self.prev@,
            width: self.bits_count as nat,
            max_bits: self.max_bits as nat,
            bits: self.bit_buf@,
        }
    }
}

impl Compressor {
    /// The state between calls: well formed, and fewer than eight bits
    /// waiting to complete a byte.
    pub closed spec fn wf(&self) -> bool {
        &&& self.dict.wf()
        &&& enc_wf(self@)
        &&& self.bit_buf@.len() < 8
    }

    /// An encoder for codes of at most `max_bits` bits; refused unless
    /// `max_bits` is 9 to 32.
    pub fn new(max_bits: u8) -> (r: Result<Compressor, LzwError>)
        ensures
            valid_max_bits(max_bits as nat) <==> r is Ok,
            !valid_max_bits(max_bits as nat) ==> r == Err::<Compressor, LzwError>(
                LzwError::InvalidMaxBits,
            ),
            r matches Ok(c) ==> c.wf() && c@ == enc_init(max_bits as nat),
    {
        if max_bits < 9 || max_bits > 32 {
            return Err(LzwError::InvalidMaxBits);
        }
        let c = Compressor {
            dict: CompressDictionary::new(),
            bits_count: 8,
            max_bits,
            prev: Vec::new(),
            bit_buf: BitBuffer::new(),
        };
        proof {
            lemma_initial_entries_distinct();
            assert(initial_entries().take(256) =~= initial_entries());
            vstd::arithmetic::power2::lemma2_to64();
            lemma_pow2_le(9, max_bits as nat);
        }
        Ok(c)
    }

    /// Feeds one byte to the state machine.
    fn encode_byte(&mut self, c: u8)
        requires
            old(self).dict.wf(),
            enc_wf(old(self)@),
            old(self).bit_buf@.len() < 8,
        ensures
            final(self).dict.wf(),
            enc_wf(final(self)@),
            final(self)@ == enc_step(old(self)@, c),
            final(self).bit_buf@.len() < 40,
    {
        let ghost st = self@;
        let ghost ext = st.prev.push(c);
        proof {
            assert(st.dict[c as int] == initial_entries()[c as int]);
            assert(st.dict[c as int] =~= seq![c]);
            if st.prev.len() == 0 {
                assert(ext =~= seq![c]);
            }
        }
        self.prev.push(c);
        if self.dict.contains(&self.prev) {
            return;
        }
        self.prev.pop();
        assert(self.prev@ =~= st.prev);
        let found = self.dict.index_of(&self.prev);
        assert(found is Some);
        let code: usize = match found {
            Some(i) => i,
            None => 0,
        };
        proof {
            vstd::arithmetic::power2::lemma2_to64();
            lemma_pow2_le(self.max_bits as nat, 32);
        }
        self.bit_buf.push_bits(code as u32, self.bits_count);
        let n = self.dict.len();
        proof {
            vstd::bits::lemma_u64_shl_is_mul(1, self.max_bits as u64);
        }
        let full: u64 = 1u64 << (self.max_bits as u64);
        if n as u64 + 1 == full {
            self.dict.reset();
            self.bits_count = 8;
            proof {
                lemma_pow2_le(9, self.max_bits as nat);
            }
        } else {
            self.bits_count = get_bits_count(n as u32) as u8;
            let mut entry = self.prev.clone();
            entry.push(c);
            assert(entry@ =~= ext);
            self.dict.insert(entry);
        }
        self.prev = Vec::new();
        self.prev.push(c);
        proof {
            let d = self.dict@;
            assert(d.take(256) =~= initial_entries());
            assert(d[c as int] == initial_entries()[c as int]);
            assert(self.prev@ =~= seq![c]);
            assert(code == code_of(st.dict, st.prev));
        }
    }

    /// Moves every complete byte of the bit queue to `out`.
    fn drain_bytes(&mut self, out: &mut Vec<u8>)
        requires
            old(self).bit_buf@.len() < 40,
        ensures
            ({
                let k = (old(self).bit_buf@.len() / 8) as int;
                &&& final(out)@ == old(out)@ + pack_bytes(old(self).bit_buf@.take(8 * k))
                &&& final(self).bit_buf@ == old(self).bit_buf@.skip(8 * k)
            }),
            final(self).bit_buf@.len() < 8,
            final(self).dict == old(self).dict,
            final(self).prev == old(self).prev,
            final(self).bits_count == old(self).bits_count,
            final(self).max_bits == old(self).max_bits,
    {
        let ghost start = self.bit_buf@;
        let ghost out0 = out@;
        let mut taken: usize = 0;
        while self.bit_buf.len() >= 8
            invariant
                start.len() < 40,
                taken % 8 == 0,
                taken <= start.len(),
                self.bit_buf@ == start.skip(taken as int),
                out@ == out0 + pack_bytes(start.take(taken as int)),
                self.dict == old(self).dict,
                self.prev == old(self).prev,
                self.bits_count == old(self).bits_count,
                self.max_bits == old(self).max_bits,
            decreases start.len() - taken,
        {
            let ghost before = self.bit_buf@;
            let b = self.bit_buf.pop_byte();
            if let Some(byte) = b {
                out.push(byte);
            }
            proof {
                let t = start.take(taken as int);
                let u = before.take(8);
                lemma_pack_append(t, u);
                assert(start.take(taken + 8) =~= t + u);
                assert(u.len() == 8);
                assert(u.skip(8) =~= Seq::<bool>::empty());
                assert(u.take(8) =~= u);
                assert(pack_bytes(Seq::<bool>::empty()) == Seq::<u8>::empty());
                assert(pack_bytes(u) =~= seq![byte_of(u)]);
                assert(self.bit_buf@ =~= start.skip(taken + 8));
            }
            taken = taken + 8;
            assert(out@ =~= out0 + pack_bytes(start.take(taken as int)));
        }
        proof {
            assert(taken / 8 == start.len() / 8);
            assert(8 * (start.len() / 8) == taken);
        }
    }

    /// Feeds `input` to the encoder and appends to `out` every byte of code
    /// bits that is complete; fewer than eight bits stay queued.
    pub fn compress(&mut self, input: &[u8], out: &mut Vec<u8>)
        requires
            old(self).wf(),
        ensures
            final(self).wf(),
            ({
                let full = enc_feed(old(self)@, input@);
                let k = (full.bits.len() / 8) as int;
                &&& final(out)@ == old(out)@ + pack_bytes(full.bits.take(8 * k))
                &&& final(self)@ == EncState { bits: full.bits.skip(8 * k), ..full }
            }),
    {
        let ghost out0 = out@;
        let ghost mut drained: Seq<bool> = Seq::empty();
        let ghost start = self@;
        let mut i: usize = 0;
        proof {
            assert(input@.take(0) =~= Seq::<u8>::empty());
            assert(start.bits =~= drained + self@.bits);
            assert(self@ == EncState { bits: self@.bits, ..start });
        }
        while i < input.len()
            invariant
                i <= input.len(),
                self.wf(),
                start == old(self)@,
                ({
                    let sp = enc_feed(start, input@.take(i as int));
                    &&& self@ == EncState { bits: self@.bits, ..sp }
                    &&& sp.bits == drained + self@.bits
                }),
                drained.len() % 8 == 0,
                out@ == out0 + pack_bytes(drained),
            decreases input.len() - i,
        {
            let c = input[i];
            let ghost sp = enc_feed(start, input@.take(i as int));
            let ghost pre = self@;
            self.encode_byte(c);
            proof {
                assert(input@.take(i + 1).drop_last() =~= input@.take(i as int));
                lemma_enc_step_bits(sp, pre, drained, c);
            }
            let ghost mid = self.bit_buf@;
            self.drain_bytes(out);
            proof {
                let k = (mid.len() / 8) as int;
                lemma_pack_append(drained, mid.take(8 * k));
                assert(mid =~= mid.take(8 * k) + mid.skip(8 * k));
                let old_drained = drained;
                drained = drained + mid.take(8 * k);
                assert(drained + self@.bits =~= old_drained + mid);
            }
            i = i + 1;
            proof {
                let sp2 = enc_feed(start, input@.take(i as int));
                assert(sp2.bits =~= drained + self@.bits);
            }
        }
        proof {
            let full = enc_feed(start, input@);
            assert(input@.take(i as int) =~= input@);
            let k = (full.bits.len() / 8) as int;
            let j = (drained.len() / 8) as int;
            assert(full.bits.len() == 8 * j + self@.bits.len());
            assert(k == j) by (nonlinear_arith)
                requires
                    k == (full.bits.len() / 8) as int,
                    full.bits.len() == 8 * j + self@.bits.len(),
                    self@.bits.len() < 8,
                    j >= 0,
            ;
            assert(full.bits.take(8 * k) =~= drained);
            assert(full.bits.skip(8 * k) =~= self@.bits);
        }
    }

    /// Emits the pending match, if any, and appends to `out` all queued
    /// bits, the last byte completed with zero bits.
    pub fn finish(self, out: &mut Vec<u8>)
        requires
            self.wf(),
        ensures
            final(out)@ == old(out)@ + pack_bytes(enc_finish(self@)),
    {
        let mut this = self;
        if this.prev.len() > 0 {
            let found = this.dict.index_of(&this.prev);
            let code: usize = match found {
                Some(i) => i,
                None => 0,
            };
            proof {
                vstd::arithmetic::power2::lemma2_to64();
                lemma_pow2_le(this.max_bits as nat, 32);
            }
            this.bit_buf.push_bits(code as u32, this.bits_count);
        }
        let mut bytes = this.bit_buf.drain_remaining_as_bytes();
        out.append(&mut bytes);
    }
}

/// Two encoder states that differ only in the bits already emitted step
/// alike, each appending the same code bits.
proof fn lemma_enc_step_bits(sp: EncState, st: EncState, d: Seq<bool>, c: u8)
    requires
        st == (EncState { bits: st.bits, ..sp }),
        sp.bits == d + st.bits,
    ensures
        enc_step(sp, c) == (EncState { bits: d + enc_step(st, c).bits, ..enc_step(st, c) }),
{
    let ext = st.prev.push(c);
    if !st.dict.contains(ext) {
        let code = bits_be(code_of(st.dict, st.prev) as u32, st.width);
        assert(sp.bits + code =~= d + (st.bits + code));
    }
}

spec fn byte_of(u: Seq<bool>) -> u8 {
    crate::bitbuf::value_be(u.take(8)) as u8
}

/// When a byte ends a match while the dictionary is full, the dictionary
/// goes back to exactly its first 256 entries, and the next code is emitted
/// 8 bits wide.
pub proof fn lemma_enc_reset_width(st: EncState, c: u8)
    requires
        enc_wf(st),
        !st.dict.contains(st.prev.push(c)),
        st.dict.len() + 1 == pow2(st.max_bits),
    ensures
        enc_step(st, c).width == 8,
        enc_step(st, c).dict == initial_entries(),
        enc_step(st, c).prev == seq![c],
{
}

} // verus!
