//! The decoder: reads codes at the width the encoder used, rebuilds the
//! encoder's dictionary one step behind it, and resets it at the same point.
use crate::bitbuf::{
    lemma_bit_width_lower, lemma_unpack_append, bit_width, bits_be, get_bits_count, lemma_pow2_le, unpack_bytes, value_be, BitBuffer,
};
use crate::dict::initial_entries;
use crate::{valid_max_bits, LzwError};
use vstd::arithmetic::power2::pow2;
use vstd::prelude::*;

verus! {

/// The decoder's state: its dictionary, the string it last wrote, the width
/// of the next code, the greatest width, and everything written so far.
pub struct DecState {
    pub dict: Seq<Seq<u8>>,
    pub string: Seq<u8>,
    pub width: nat,
    pub max_bits: nat,
    pub output: Seq<u8>,
}

/// The state before any code.
pub open spec fn dec_init(max_bits: nat) -> DecState {
    DecState {
        dict: initial_entries(),
        string: Seq::empty(),
        width: 8,
        max_bits,
        output: Seq::empty(),
    }
}

/// Whether code `k` cannot be decoded: it is past the next free index, or it
/// is that index while no string has been written yet.
pub open spec fn corrupt_code(st: DecState, k: nat) -> bool {
    k > st.dict.len() || (k == st.dict.len() && st.string.len() == 0)
}

/// One code. Unless it is the first since the start or a reset, the last
/// string extended by the first byte of this code's string becomes a new
/// entry; when the code is that very entry, its first byte is the last
/// string's own. The code's string is written. When the dictionary is full
/// the decoder goes back to its state at the start, with the output kept.
pub open spec fn dec_code(st: DecState, k: nat) -> Option<DecState> {
    let n = st.dict.len();
    if corrupt_code(st, k) {
        None
    } else {
        let dict1 = if st.string.len() == 0 {
            st.dict
        } else if k == n {
            st.dict.push(st.string.push(st.string[0]))
        } else {
            st.dict.push(st.string.push(st.dict[k as int][0]))
        };
        let w = dict1[k as int];
        if dict1.len() + 1 == pow2(st.max_bits) {
            Some(
                DecState {
                    dict: initial_entries(),
                    string: Seq::empty(),
                    width: 8,
                    output: st.output + w,
                    ..st
                },
            )
        } else {
            Some(
                DecState {
                    dict: dict1,
                    string: w,
                    width: bit_width(dict1.len()),
                    output: st.output + w,
                    ..st
                },
            )
        }
    }
}

/// Decodes codes off the front of `bits` while a whole code is there; gives
/// the state and the bits left over, or `None` at a corrupt code.
pub open spec fn dec_run(st: DecState, bits: Seq<bool>) -> Option<(DecState, Seq<bool>)>
    decreases bits.len(),
{
    if st.width == 0 || bits.len() < st.width {
        Some((st, bits))
    } else {
        match dec_code(st, value_be(bits.take(st.width as int))) {
            None => None,
            Some(s2) => dec_run(s2, bits.skip(st.width as int)),
        }
    }
}

/// The decompressed form of `data`, or `None` where it holds a corrupt
/// code. Bits after the last whole code are the encoder's padding.
pub open spec fn lzw_decode(data: Seq<u8>, max_bits: nat) -> Option<Seq<u8>> {
    match dec_run(dec_init(max_bits), unpack_bytes(data)) {
        Some((st, _)) => Some(st.output),
        None => None,
    }
}

/// What holds of the decoder's state between codes.
pub open spec fn dec_wf(st: DecState) -> bool {
    &&& valid_max_bits(st.max_bits)
    &&& 8 <= st.width <= 32
    &&& 256 <= st.dict.len()
    &&& st.dict.len() + 1 < pow2(st.max_bits)
    &&& forall|i: int| 0 <= i < st.dict.len() ==> #[trigger] st.dict[i].len() > 0
}

/// The decoder: it takes bytes in chunks, writes each string as soon as its
/// code is complete, and keeps the bits of an unfinished code.
pub struct Decompressor {
    dict: Vec<Vec<u8>>,
    bits_count: u8,
    max_bits: u8,
    string: Vec<u8>,
    bit_buf: BitBuffer,
}

impl Decompressor {
    /// The decoder's state, given what it has written.
    pub closed spec fn state(&self, output: Seq<u8>) -> DecState {
        DecState {
            dict: self.dict@.map_values(|e: Vec<u8>| e@),
            string: self.string@,
            width: self.bits_count as nat,
            max_bits: self.max_bits as nat,
            output,
        }
    }

    /// The bits of an unfinished code.
    pub closed spec fn pending(&self) -> Seq<bool> {
        self.bit_buf@
    }

    /// The state between calls: well formed, and fewer bits waiting than the
    /// next code takes.
    pub closed spec fn wf(&self) -> bool {
        &&& dec_wf(self.state(Seq::empty()))
        &&& self.bit_buf@.len() < self.bits_count
    }

    /// A decoder for codes of at most `max_bits` bits; refused unless
    /// `max_bits` is 9 to 32.
    pub fn new(max_bits: u8) -> (r: Result<Decompressor, LzwError>)
        ensures
            valid_max_bits(max_bits as nat) <==> r is Ok,
            !valid_max_bits(max_bits as nat) ==> r == Err::<Decompressor, LzwError>(
                LzwError::InvalidMaxBits,
            ),
            r matches Ok(d) ==> d.wf() && d.state(Seq::empty()) == dec_init(max_bits as nat)
                && d.pending() == Seq::<bool>::empty(),
    {
        if max_bits < 9 || max_bits > 32 {
            return Err(LzwError::InvalidMaxBits);
        }
        let d = Decompressor {
            dict: initial_dictionary(),
            bits_count: 8,
            max_bits,
            string: Vec::new(),
            bit_buf: BitBuffer::new(),
        };
        proof {
            vstd::arithmetic::power2::lemma2_to64();
            lemma_pow2_le(9, max_bits as nat);
            assert(d.state(Seq::empty()).dict =~= initial_entries());
        }
        Ok(d)
    }

    /// Decodes one code, appending its string to `out`.
    fn decode_code(&mut self, k: u32, out: &mut Vec<u8>) -> (r: Result<(), LzwError>)
        requires
            dec_wf(old(self).state(Seq::empty())),
        ensures
            final(self).bit_buf == old(self).bit_buf,
            match dec_code(old(self).state(old(out)@), k as nat) {
                None => r == Err::<(), LzwError>(LzwError::CorruptCode),
                Some(s) => r is Ok && final(self).state(final(out)@) == s && dec_wf(
                    final(self).state(Seq::empty()),
                ),
            },
    {
        let ghost st = self.state(out@);
        let n = self.dict.len();
        let kk = k as usize;
        if kk > n || (kk == n && self.string.len() == 0) {
            return Err(LzwError::CorruptCode);
        }
        if self.string.len() > 0 {
            let first: u8 = if kk == n {
                self.string[0]
            } else {
                assert(st.dict[kk as int].len() > 0);
                self.dict[kk][0]
            };
            let mut entry = self.string.clone();
            entry.push(first);
            let ghost before = self.dict@;
            let ghost e = entry@;
            self.dict.push(entry);
            proof {
                assert(self.dict@.map_values(|v: Vec<u8>| v@) =~= before.map_values(
                    |v: Vec<u8>| v@,
                ).push(e));
                if kk == n {
                    assert(e =~= st.string.push(st.string[0]));
                } else {
                    assert(e =~= st.string.push(st.dict[kk as int][0]));
                }
            }
        }
        let ghost dict1 = self.state(out@).dict;
        let w = self.dict[kk].clone();
        assert(w@ == dict1[kk as int]);
        let mut written = w.clone();
        out.append(&mut written);
        self.string = w;
        let n1 = self.dict.len();
        proof {
            vstd::arithmetic::power2::lemma2_to64();
            lemma_pow2_le(self.max_bits as nat, 32);
            vstd::bits::lemma_u64_shl_is_mul(1, self.max_bits as u64);
        }
        let full: u64 = 1u64 << (self.max_bits as u64);
        if n1 as u64 + 1 == full {
            self.dict = initial_dictionary();
            self.string = Vec::new();
            self.bits_count = 8;
            proof {
                lemma_pow2_le(9, self.max_bits as nat);
            }
        } else {
            self.bits_count = get_bits_count(n1 as u32) as u8;
            proof {
                lemma_bit_width_lower(n1 as nat, 8);
            }
        }
        proof {
            let s = dec_code(st, k as nat);
            assert(s is Some);
            assert(self.state(out@) == s->Some_0);
            let fin = self.state(Seq::empty());
            assert forall|i: int| 0 <= i < fin.dict.len() implies #[trigger] fin.dict[i].len()
                > 0 by {
                if n1 as u64 + 1 != full {
                    if i < n {
                        assert(fin.dict[i] == st.dict[i]);
                    }
                }
            }
        }
        Ok(())
    }

    /// Takes the bytes of `input`, decoding each code as soon as its bits
    /// are all there and appending its string to `out`; the bits of an
    /// unfinished code are kept for the next call.
    pub fn decompress(&mut self, input: &[u8], out: &mut Vec<u8>) -> (r: Result<(), LzwError>)
        requires
            old(self).wf(),
        ensures
            match dec_run(old(self).state(old(out)@), old(self).pending() + unpack_bytes(input@)) {
                None => r == Err::<(), LzwError>(LzwError::CorruptCode),
                Some((s, p)) => r is Ok && final(self).wf() && final(self).state(final(out)@) == s
                    && final(self).pending() == p && final(out)@ == s.output,
            },
    {
        let ghost target = dec_run(old(self).state(old(out)@), old(self).pending() + unpack_bytes(input@));
        let mut i: usize = 0;
        proof {
            assert(input@.skip(0) =~= input@);
        }
        while i < input.len()
            invariant
                i <= input.len(),
                self.wf(),
                target == dec_run(old(self).state(old(out)@), old(self).pending() + unpack_bytes(input@)),
                target == dec_run(self.state(out@), self.pending() + unpack_bytes(input@.skip(i as int))),
            decreases input.len() - i,
        {
            let byte = input[i];
            proof {
                let rest = input@.skip(i + 1);
                assert(input@.skip(i as int) =~= seq![byte] + rest);
                lemma_unpack_append(seq![byte], rest);
                assert(seq![byte].drop_last() =~= Seq::<u8>::empty());
                assert(unpack_bytes(Seq::<u8>::empty()) == Seq::<bool>::empty());
                assert(Seq::<bool>::empty() + bits_be(byte as u32, 8) =~= bits_be(byte as u32, 8));
                assert(unpack_bytes(seq![byte]) =~= bits_be(byte as u32, 8));
                assert(self.pending() + unpack_bytes(input@.skip(i as int)) =~= (self.pending()
                    + bits_be(byte as u32, 8)) + unpack_bytes(rest));
            }
            self.bit_buf.push_bits(byte as u32, 8);
            i = i + 1;
            while self.bit_buf.len() >= self.bits_count as usize
                invariant
                    i <= input.len(),
                    dec_wf(self.state(Seq::empty())),
                    self.bit_buf@.len() < 40,
                    target == dec_run(old(self).state(old(out)@), old(self).pending() + unpack_bytes(input@)),
                    target == dec_run(self.state(out@), self.pending() + unpack_bytes(input@.skip(i as int))),
                decreases self.bit_buf@.len(),
            {
                let ghost rest = unpack_bytes(input@.skip(i as int));
                let ghost p = self.pending();
                let ghost w = self.bits_count as int;
                let ghost st0 = self.state(out@);
                let popped = self.bit_buf.pop_bits(self.bits_count);
                let k: u32 = match popped {
                    Some(v) => v,
                    None => 0,
                };
                proof {
                    assert((p + rest).take(w) =~= p.take(w));
                    assert((p + rest).skip(w) =~= p.skip(w) + rest);
                }
                proof {
                    vstd::arithmetic::power2::lemma2_to64();
                    crate::bitbuf::lemma_value_be_bound(p.take(w));
                    lemma_pow2_le(w as nat, 32);
                    assert(k as nat == value_be((p + rest).take(w)));
                }
                let res = self.decode_code(k, out);
                if res.is_err() {
                    proof {
                        assert(dec_code(st0, k as nat) is None);
                        assert(target is None);
                    }
                    return Err(LzwError::CorruptCode);
                }
            }
        }
        proof {
            assert(input@.skip(i as int) =~= Seq::<u8>::empty());
            assert(unpack_bytes(Seq::<u8>::empty()) == Seq::<bool>::empty());
            assert(self.pending() + Seq::<bool>::empty() =~= self.pending());
        }
        Ok(())
    }
}

/// The 256 one-byte strings, byte `b` at index `b`.
fn initial_dictionary() -> (r: Vec<Vec<u8>>)
    ensures
        r@.map_values(|e: Vec<u8>| e@) == initial_entries(),
{
    let mut d: Vec<Vec<u8>> = Vec::new();
    let mut b: u16 = 0;
    while b < 256
        invariant
            b <= 256,
            d@.len() == b,
            d@.map_values(|e: Vec<u8>| e@) == initial_entries().take(b as int),
        decreases 256 - b,
    {
        let mut entry: Vec<u8> = Vec::new();
        entry.push(b as u8);
        let ghost before = d@;
        assert(entry@ =~= seq![b as u8]);
        d.push(entry);
        b = b + 1;
        assert forall|i: int| 0 <= i < b implies d@.map_values(|e: Vec<u8>| e@)[i]
            == initial_entries().take(b as int)[i] by {
            if i < b - 1 {
                assert(d@[i] == before[i]);
                assert(before.map_values(|e: Vec<u8>| e@)[i] == initial_entries().take(b - 1)[i]);
            }
        }
        assert(d@.map_values(|e: Vec<u8>| e@) =~= initial_entries().take(b as int));
    }
    assert(initial_entries().take(256) =~= initial_entries());
    d
}

/// When a code fills the dictionary, the decoder goes back to the first 256
/// entries with no last string, so that the next code makes no entry, and
/// reads that code 8 bits wide, as the encoder wrote it.
pub proof fn lemma_dec_reset_width(st: DecState, k: nat)
    requires
        dec_code(st, k) is Some,
        ({
            let n = st.dict.len();
            let grown = if st.string.len() == 0 {
                n
            } else {
                n + 1
            };
            grown + 1 == pow2(st.max_bits)
        }),
    ensures
        dec_code(st, k)->Some_0.width == 8,
        dec_code(st, k)->Some_0.dict == initial_entries(),
        dec_code(st, k)->Some_0.string == Seq::<u8>::empty(),
{
}

/// Whether `a` is the start of `b`.
pub open spec fn is_prefix(a: Seq<u8>, b: Seq<u8>) -> bool {
    a.len() <= b.len() && b.take(a.len() as int) == a
}

/// Decoding only ever appends to what has been written.
proof fn lemma_run_extends(st: DecState, bits: Seq<bool>)
    requires
        dec_run(st, bits) is Some,
    ensures
        is_prefix(st.output, dec_run(st, bits)->Some_0.0.output),
    decreases bits.len(),
{
    if !(st.width == 0 || bits.len() < st.width) {
        let s2 = dec_code(st, value_be(bits.take(st.width as int)))->Some_0;
        lemma_run_extends(s2, bits.skip(st.width as int));
        let fin = dec_run(st, bits)->Some_0.0.output;
        assert(fin.take(s2.output.len() as int).take(st.output.len() as int) =~= fin.take(
            st.output.len() as int,
        ));
        assert(s2.output.take(st.output.len() as int) =~= st.output);
    } else {
        assert(st.output.take(st.output.len() as int) =~= st.output);
    }
}

/// Fewer bits decode to a start of what more bits decode to.
proof fn lemma_run_prefix(st: DecState, a: Seq<bool>, b: Seq<bool>)
    requires
        dec_run(st, a + b) is Some,
    ensures
        dec_run(st, a) is Some,
        is_prefix(dec_run(st, a)->Some_0.0.output, dec_run(st, a + b)->Some_0.0.output),
    decreases a.len(),
{
    if st.width == 0 || a.len() < st.width {
        lemma_run_extends(st, a + b);
    } else {
        let w = st.width as int;
        assert((a + b).take(w) =~= a.take(w));
        assert((a + b).skip(w) =~= a.skip(w) + b);
        let s2 = dec_code(st, value_be(a.take(w)))->Some_0;
        lemma_run_prefix(s2, a.skip(w), b);
    }
}

/// Cutting a stream short never makes it fail to decode: any first part of
/// a stream that decodes decodes too, to a start of the full output.
pub proof fn lemma_truncated_decodes_prefix(data: Seq<u8>, n: nat, max_bits: nat)
    requires
        n <= data.len(),
        lzw_decode(data, max_bits) is Some,
    ensures
        lzw_decode(data.take(n as int), max_bits) is Some,
        is_prefix(
            lzw_decode(data.take(n as int), max_bits)->Some_0,
            lzw_decode(data, max_bits)->Some_0,
        ),
{
    assert(data =~= data.take(n as int) + data.skip(n as int));
    lemma_unpack_append(data.take(n as int), data.skip(n as int));
    lemma_run_prefix(
        dec_init(max_bits),
        unpack_bytes(data.take(n as int)),
        unpack_bytes(data.skip(n as int)),
    );
}

} // verus!
