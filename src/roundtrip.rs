//! Decoding undoes encoding. The decoder runs one dictionary entry behind the
//! encoder: after each code, either both are back at their start (after the
//! first code's state is reset), or the decoder's dictionary is the
//! encoder's without the last entry, and its last string is that entry
//! without its final byte.
use crate::bitbuf::{
    bit_width, bits_be, lemma_bit_width_lower, lemma_pow2_le, lemma_unpack_append,
    lemma_value_be_bound, lemma_value_of_bits_be, pack_bytes, unpack_bytes, value_be,
};
use crate::compress::{enc_feed, enc_finish, enc_init, enc_step, enc_wf, lzw_encode, EncState};
use crate::decompress::{dec_code, dec_init, dec_run, lzw_decode, DecState};
use crate::dict::{code_of, initial_entries, lemma_initial_entries_distinct};
use crate::lzw::{lemma_strip_zero_padded, strip_final_block, zero_padded};
use crate::valid_max_bits;
use vstd::arithmetic::power2::{lemma_pow2_unfold, pow2};
use vstd::prelude::*;

verus! {

/// A number below `2^k` takes at most `k` bits.
proof fn lemma_bit_width_upper(n: nat, k: nat)
    requires
        n < pow2(k),
    ensures
        bit_width(n) <= k,
    decreases k,
{
    if n > 0 {
        if k == 0 {
            vstd::arithmetic::power2::lemma2_to64();
        } else {
            lemma_pow2_unfold(k);
            lemma_bit_width_upper(n / 2, (k - 1) as nat);
        }
    }
}

/// A number fits in its own bit width.
proof fn lemma_bit_width_fits(n: nat)
    ensures
        n < pow2(bit_width(n)),
    decreases n,
{
    if n == 0 {
        vstd::arithmetic::power2::lemma2_to64();
    } else {
        lemma_bit_width_fits(n / 2);
        lemma_pow2_unfold(bit_width(n));
    }
}

/// Each step keeps the encoder's state well formed.
proof fn lemma_enc_step_wf(st: EncState, c: u8)
    requires
        enc_wf(st),
    ensures
        enc_wf(enc_step(st, c)),
{
    let ext = st.prev.push(c);
    let single = seq![c];
    assert(st.dict[c as int] == initial_entries()[c as int]);
    assert(st.dict[c as int] =~= single);
    if !st.dict.contains(ext) {
        let n = st.dict.len();
        let s2 = enc_step(st, c);
        vstd::arithmetic::power2::lemma2_to64();
        lemma_pow2_le(9, st.max_bits);
        lemma_pow2_le(st.max_bits, 32);
        if n + 1 == pow2(st.max_bits) {
            lemma_initial_entries_distinct();
            assert(s2.dict.take(256) =~= initial_entries());
            assert(s2.dict[c as int] =~= single);
        } else {
            lemma_bit_width_upper(n, 32);
            assert(s2.dict.take(256) =~= st.dict.take(256));
            assert(s2.dict[c as int] =~= single);
        }
        assert(s2.prev =~= single);
        assert(s2.dict.contains(s2.prev));
    }
}

/// What the encoder's state says of the input seen so far. Its dictionary
/// is either fresh (the 256 one-byte strings, codes 8 bits wide) or has a
/// last entry that ends with the first byte of the pending match, and codes
/// as wide as the index of that entry takes.
pub open spec fn sim_inv(e: EncState, seen: Seq<u8>) -> bool {
    &&& enc_wf(e)
    &&& e.prev.len() <= seen.len()
    &&& seen.skip(seen.len() - e.prev.len()) == e.prev
    &&& (seen.len() > 0 ==> e.prev.len() > 0)
    &&& (e.dict.len() == 256 ==> e.dict == initial_entries() && e.width == 8)
    &&& (e.dict.len() > 256 ==> e.dict.last().len() >= 2 && e.prev.len() > 0
        && e.dict.last().last() == e.prev[0] && e.width == bit_width((e.dict.len() - 1) as nat))
}

/// The decoder's state once it has read every code the encoder emitted:
/// its state at the start while the encoder's dictionary is fresh, else the
/// encoder's dictionary without its last entry, and that entry without its
/// final byte as the last string written.
pub open spec fn dec_of(e: EncState, out: Seq<u8>) -> DecState {
    if e.dict.len() == 256 {
        DecState { output: out, ..dec_init(e.max_bits) }
    } else {
        DecState {
            dict: e.dict.drop_last(),
            string: e.dict.last().drop_last(),
            width: e.width,
            max_bits: e.max_bits,
            output: out,
        }
    }
}

/// The decoder's state after it reads the code of the encoder's pending
/// match.
pub open spec fn dec_next(e: EncState, out: Seq<u8>) -> DecState {
    if e.dict.len() + 1 == pow2(e.max_bits) {
        DecState {
            dict: initial_entries(),
            string: Seq::empty(),
            width: 8,
            max_bits: e.max_bits,
            output: out + e.prev,
        }
    } else {
        DecState {
            dict: e.dict,
            string: e.prev,
            width: bit_width(e.dict.len()),
            max_bits: e.max_bits,
            output: out + e.prev,
        }
    }
}

/// The code of the pending match fits in the current width, and reading it
/// takes the decoder from `dec_of` to `dec_next`.
proof fn lemma_decode_pending(e: EncState, seen: Seq<u8>, out: Seq<u8>, r: Seq<bool>)
    requires
        sim_inv(e, seen),
        e.prev.len() > 0,
    ensures
        code_of(e.dict, e.prev) < pow2(e.width),
        dec_run(dec_of(e, out), bits_be(code_of(e.dict, e.prev) as u32, e.width) + r) == dec_run(
            dec_next(e, out),
            r,
        ),
        dec_next(e, out).width >= 8,
{
    let k = code_of(e.dict, e.prev);
    let w = e.width;
    let delta = bits_be(k as u32, w);
    let d = dec_of(e, out);
    let p = e.prev;
    let n = e.dict.len();
    vstd::arithmetic::power2::lemma2_to64();
    lemma_pow2_le(9, e.max_bits);
    assert(e.dict.contains(e.prev));
    assert(0 <= k < n && e.dict[k as int] == p);
    if n == 256 {
        assert(k < pow2(8));
    } else {
        lemma_bit_width_fits((n - 1) as nat);
        lemma_pow2_le(bit_width((n - 1) as nat), bit_width((n - 1) as nat));
        lemma_bit_width_lower((n - 1) as nat, 8);
        let last = e.dict.last();
        let s = last.drop_last();
        let dd = e.dict.drop_last();
        assert(last =~= s.push(last.last()));
        if k == n - 1 {
            assert(p == last);
            assert(s[0] == p[0]);
            assert(s.push(s[0]) == last);
        } else {
            assert(dd[k as int] == p);
            assert(s.push(dd[k as int][0]) == last);
        }
        assert(dd.push(last) =~= e.dict);
    }
    lemma_pow2_le(w, 32);
    lemma_value_of_bits_be(k as u32, w);
    assert((delta + r).take(w as int) =~= delta);
    assert((delta + r).skip(w as int) =~= r);
    assert(dec_code(d, k) == Some(dec_next(e, out)));
    lemma_bit_width_lower(n, 8);
}

/// A byte that ends the match: the encoder's new state satisfies the
/// invariant, and the decoder state it stands for is the one reached by
/// reading the code just emitted.
proof fn lemma_sim_emit(e0: EncState, seen0: Seq<u8>, out0: Seq<u8>, c: u8)
    requires
        sim_inv(e0, seen0),
        !e0.dict.contains(e0.prev.push(c)),
        seen0 == out0 + e0.prev,
    ensures
        e0.prev.len() > 0,
        sim_inv(enc_step(e0, c), seen0.push(c)),
        dec_of(enc_step(e0, c), seen0) == dec_next(e0, out0),
{
    let e = enc_step(e0, c);
    let ext = e0.prev.push(c);
    let seen = seen0.push(c);
    lemma_enc_step_wf(e0, c);
    assert(e0.prev.len() > 0) by {
        assert(e0.dict[c as int] == initial_entries()[c as int]);
        if e0.prev.len() == 0 {
            assert(ext =~= seq![c]);
        }
    }
    vstd::arithmetic::power2::lemma2_to64();
    lemma_pow2_le(9, e0.max_bits);
    if e0.dict.len() + 1 == pow2(e0.max_bits) {
        assert(e.dict == initial_entries());
    } else {
        assert(e.dict.drop_last() =~= e0.dict);
        assert(e.dict.last().drop_last() =~= e0.prev);
    }
    assert(seen.skip(seen.len() - 1) =~= seq![c]);
    assert(e.prev =~= seq![c]);
}

/// The encoder's emitted bits, followed by anything, decode as the
/// decoder's `dec_of` state would decode what follows.
proof fn lemma_sim(x: Seq<u8>, m: nat, i: nat, r: Seq<bool>)
    requires
        valid_max_bits(m),
        i <= x.len(),
    ensures
        sim_inv(enc_feed(enc_init(m), x.take(i as int)), x.take(i as int)),
        dec_run(dec_init(m), enc_feed(enc_init(m), x.take(i as int)).bits + r) == dec_run(
            dec_of(
                enc_feed(enc_init(m), x.take(i as int)),
                x.take(i - enc_feed(enc_init(m), x.take(i as int)).prev.len()),
            ),
            r,
        ),
    decreases i,
{
    let e = enc_feed(enc_init(m), x.take(i as int));
    if i == 0 {
        assert(x.take(0) =~= Seq::<u8>::empty());
        lemma_initial_entries_distinct();
        vstd::arithmetic::power2::lemma2_to64();
        lemma_pow2_le(9, m);
        assert(initial_entries().take(256) =~= initial_entries());
        assert(e.bits + r =~= r);
        assert(x.take(0).skip(0) =~= Seq::<u8>::empty());
        assert(dec_of(e, x.take(0)) =~= dec_init(m));
    } else {
        let j = (i - 1) as nat;
        let seen0 = x.take(j as int);
        let seen = x.take(i as int);
        assert(seen.drop_last() =~= seen0);
        let e0 = enc_feed(enc_init(m), seen0);
        let c = x[j as int];
        assert(e == enc_step(e0, c));
        let ext = e0.prev.push(c);
        let out0 = x.take(j - e0.prev.len());
        lemma_sim(x, m, j, r);
        lemma_enc_step_wf(e0, c);
        if e0.dict.contains(ext) {
            assert(seen.skip(seen.len() - e.prev.len()) =~= ext);
            assert(x.take(i - e.prev.len()) =~= out0);
            assert(dec_of(e, out0) == dec_of(e0, out0));
            if e0.dict.len() > 256 {
                assert(e.prev[0] == e0.prev[0]);
            }
        } else {
            let k = code_of(e0.dict, e0.prev);
            let delta = bits_be(k as u32, e0.width);
            lemma_sim(x, m, j, delta + r);
            assert(seen0 =~= out0 + e0.prev);
            assert(seen =~= seen0.push(c));
            lemma_sim_emit(e0, seen0, out0, c);
            assert(e.bits =~= e0.bits + delta);
            assert(e.bits + r =~= e0.bits + (delta + r));
            lemma_decode_pending(e0, seen0, out0, r);
            assert(x.take(i - e.prev.len()) =~= seen0);
        }
    }
}

/// Over any input, whenever the encoder's dictionary holds only its first
/// 256 entries (at the start, and after every reset), the next code is
/// emitted 8 bits wide; the decoder it corresponds to is back at its start,
/// reading 8 bits with no last string.
pub proof fn lemma_fresh_width(x: Seq<u8>, m: nat, i: nat)
    requires
        valid_max_bits(m),
        i <= x.len(),
    ensures
        ({
            let e = enc_feed(enc_init(m), x.take(i as int));
            e.dict == initial_entries() ==> e.width == 8 && dec_of(e, Seq::empty()).width == 8
                && dec_of(e, Seq::empty()).string == Seq::<u8>::empty()
        }),
{
    lemma_sim(x, m, i, Seq::empty());
}

/// The bits of a sequence of at most 32 bits, read as a value and spelled
/// again at the same width, are the same bits.
proof fn lemma_bits_of_value(s: Seq<bool>)
    requires
        s.len() <= 32,
    ensures
        bits_be(value_be(s) as u32, s.len()) == s,
    decreases s.len(),
{
    let n = s.len();
    if n > 0 {
        let t = s.drop_last();
        lemma_bits_of_value(t);
        lemma_value_be_bound(t);
        vstd::arithmetic::power2::lemma2_to64();
        lemma_pow2_le((n - 1) as nat, 31);
        let v = value_be(t) as u32;
        let b: u32 = if s.last() {
            1
        } else {
            0
        };
        assert(v < 0x8000_0000u32);
        assert(((v << 1u32) | b) == 2 * v + b) by (bit_vector)
            requires
                v < 0x8000_0000u32,
                b <= 1u32,
        ;
        let big = (v << 1u32) | b;
        assert(value_be(s) as u32 == big);
        assert forall|i: int| 0 <= i < n implies bits_be(big, n)[i] == s[i] by {
            let sh = (n - 1 - i) as u32;
            if i == n - 1 {
                assert(sh == 0);
                assert((((v << 1u32) | b) >> 0u32) & 1u32 == b) by (bit_vector)
                    requires
                        b <= 1u32,
                ;
            } else {
                assert((((v << 1u32) | b) >> sh) == v >> ((sh - 1) as u32)) by (bit_vector)
                    requires
                        1u32 <= sh < 32u32,
                        b <= 1u32,
                        v < 0x8000_0000u32,
                ;
                assert(bits_be(v, (n - 1) as nat)[i] == t[i]);
            }
        }
        assert(bits_be(big, n) =~= s);
    } else {
        assert(bits_be(value_be(s) as u32, 0) =~= s);
    }
}

/// The number of zero bits that complete the last byte.
pub open spec fn pad_len(n: nat) -> nat {
    if n % 8 == 0 {
        0
    } else {
        (8 - n % 8) as nat
    }
}

/// Unpacking packed bits gives them back, followed by the zero bits that
/// completed the last byte.
proof fn lemma_unpack_pack(b: Seq<bool>)
    ensures
        unpack_bytes(pack_bytes(b)) == b + Seq::new(pad_len(b.len()), |i: int| false),
    decreases b.len(),
{
    if b.len() == 0 {
        assert(unpack_bytes(Seq::<u8>::empty()) == Seq::<bool>::empty());
        assert(b + Seq::new(0, |i: int| false) =~= b);
    } else {
        let head = if b.len() < 8 {
            b + Seq::new((8 - b.len()) as nat, |i: int| false)
        } else {
            b.take(8)
        };
        lemma_bits_of_value(head);
        lemma_value_be_bound(head);
        vstd::arithmetic::power2::lemma2_to64();
        let byte = value_be(head) as u8;
        assert(byte as u32 == value_be(head) as u32);
        assert(seq![byte].drop_last() =~= Seq::<u8>::empty());
        assert(unpack_bytes(Seq::<u8>::empty()) == Seq::<bool>::empty());
        assert(unpack_bytes(seq![byte]) =~= head);
        if b.len() < 8 {
            assert(b + Seq::new(pad_len(b.len()), |i: int| false) =~= head);
        } else {
            let rest = b.skip(8);
            lemma_unpack_pack(rest);
            lemma_unpack_append(seq![byte], pack_bytes(rest));
            assert(rest.len() % 8 == b.len() % 8);
            assert(b + Seq::new(pad_len(b.len()), |i: int| false) =~= head + (rest + Seq::new(
                pad_len(rest.len()),
                |i: int| false,
            )));
        }
    }
}

/// Decompressing the compressed form of any input gives the input back,
/// for every greatest width from 9 to 32.
pub proof fn lemma_round_trip(x: Seq<u8>, m: nat)
    requires
        valid_max_bits(m),
    ensures
        lzw_decode(lzw_encode(x, m), m) == Some(x),
{
    let e = enc_feed(enc_init(m), x);
    assert(x.take(x.len() as int) =~= x);
    let total = enc_finish(e);
    lemma_unpack_pack(total);
    let z = Seq::new(pad_len(total.len()), |i: int| false);
    if e.prev.len() == 0 {
        lemma_sim(x, m, x.len(), Seq::empty());
        assert(x.len() == 0);
        assert(total + z =~= Seq::<bool>::empty());
        assert(dec_run(dec_init(m), Seq::<bool>::empty()) == Some(
            (dec_init(m), Seq::<bool>::empty()),
        ));
        assert(x =~= Seq::<u8>::empty());
    } else {
        let k = code_of(e.dict, e.prev);
        let delta = bits_be(k as u32, e.width);
        lemma_sim(x, m, x.len(), delta + z);
        let out = x.take(x.len() - e.prev.len());
        assert(total + z =~= e.bits + (delta + z));
        lemma_decode_pending(e, x, out, z);
        let d2 = dec_next(e, out);
        assert(z.len() < 8);
        assert(dec_run(d2, z) == Some((d2, z)));
        assert(x =~= out + e.prev);
    }
}

/// Through the block framing: zero padding the compressed form, then
/// stripping the last block's trailing zeros and decompressing, gives the
/// input back, provided the compressed form ends on a block boundary or in
/// a nonzero byte.
pub proof fn lemma_padded_round_trip(x: Seq<u8>, m: nat)
    requires
        valid_max_bits(m),
        lzw_encode(x, m).len() % 16 == 0 || lzw_encode(x, m).last() != 0,
    ensures
        lzw_decode(strip_final_block(zero_padded(lzw_encode(x, m))), m) == Some(x),
{
    lemma_strip_zero_padded(lzw_encode(x, m));
    lemma_round_trip(x, m);
}

} // verus!
