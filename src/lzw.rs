//! Whole-buffer compression and decompression, and the framing that sits
//! between the codec and a 16-byte block cipher in CBC mode: the key derived
//! from a password, zero padding of the last block, the initialisation
//! vector in front of the ciphertext, and the zeros taken off again after
//! deciphering.
use crate::compress::{enc_feed, enc_finish, enc_init, lemma_pack_append, lzw_encode, Compressor};
use crate::decompress::{lzw_decode, Decompressor};
use crate::{valid_max_bits, LzwError};
use ring::pbkdf2;
use std::num::NonZeroU32;
use vstd::prelude::*;

verus! {

/// The cipher's block length in bytes.
pub const BLOCK_LEN: usize = 16;

/// The number of iterations of the key derivation.
pub const KEY_ITERATIONS: u32 = 100_000;

/// The salt of the key derivation; part of the enciphered format.
pub open spec fn key_salt() -> Seq<u8> {
    seq![
        0xd6u8, 0x26u8, 0x98u8, 0xdau8, 0xf4u8, 0xdcu8, 0x50u8, 0x52u8,
        0x24u8, 0xf2u8, 0x27u8, 0xd1u8, 0xfeu8, 0x39u8, 0x01u8, 0x8au8,
    ]
}

/// The 16-byte key that PBKDF2 with HMAC-SHA256 derives from a password's
/// UTF-8 bytes under the given iteration count and salt.
pub uninterp spec fn pbkdf2_sha256_key(iterations: nat, salt: Seq<u8>, password: Seq<char>) -> Seq<u8>;

/// The longest password, in characters, handed to the key derivation; far
/// below the input length at which the digest gives up.
pub const MAX_PASSWORD_CHARS: u64 = 0x10_0000_0000;

/// Relies on `ring::pbkdf2::derive` with `PBKDF2_HMAC_SHA256`: it fills the
/// 16-byte output from the iteration count, salt and password alone. It
/// panics only on inputs too long for the digest.
#[verifier::external_body]
fn pbkdf2_sha256(iterations: u32, salt: &[u8], password: &str) -> (r: [u8; 16])
    requires
        iterations > 0,
        password@.len() <= MAX_PASSWORD_CHARS,
        salt@.len() <= 64,
    ensures
        r@ == pbkdf2_sha256_key(iterations as nat, salt@, password@),
{
    let mut key = [0u8; 16];
    let n = NonZeroU32::new(iterations).unwrap();
    pbkdf2::derive(pbkdf2::PBKDF2_HMAC_SHA256, n, salt, password.as_bytes(), &mut key);
    key
}

/// The cipher key for a password: PBKDF2 with HMAC-SHA256, the fixed salt
/// and 100,000 iterations.
pub fn derive_key(secret: &str) -> (r: [u8; 16])
    requires
        secret@.len() <= MAX_PASSWORD_CHARS,
    ensures
        r@ == pbkdf2_sha256_key(KEY_ITERATIONS as nat, key_salt(), secret@),
{
    let salt: Vec<u8> = vec![
        0xd6, 0x26, 0x98, 0xda, 0xf4, 0xdc, 0x50, 0x52, 0x24, 0xf2, 0x27, 0xd1, 0xfe, 0x39, 0x01,
        0x8a,
    ];
    assert(salt@ =~= key_salt());
    pbkdf2_sha256(KEY_ITERATIONS, salt.as_slice(), secret)
}

/// Compresses `data` with codes of at most `max_bits` bits; refused unless
/// `max_bits` is 9 to 32.
pub fn compress(data: &[u8], max_bits: usize) -> (r: Result<Vec<u8>, LzwError>)
    ensures
        !valid_max_bits(max_bits as nat) ==> r == Err::<Vec<u8>, LzwError>(LzwError::InvalidMaxBits),
        valid_max_bits(max_bits as nat) ==> (r matches Ok(v) && v@ == lzw_encode(
            data@,
            max_bits as nat,
        )),
{
    if max_bits < 9 || max_bits > 32 {
        return Err(LzwError::InvalidMaxBits);
    }
    let mut c = match Compressor::new(max_bits as u8) {
        Ok(c) => c,
        Err(e) => return Err(e),
    };
    let mut out: Vec<u8> = Vec::new();
    c.compress(data, &mut out);
    let ghost mid = c@;
    c.finish(&mut out);
    proof {
        let full = enc_feed(enc_init(max_bits as nat), data@);
        let k = (full.bits.len() / 8) as int;
        let head = full.bits.take(8 * k);
        let tail = enc_finish(mid);
        lemma_pack_append(head, tail);
        assert(enc_finish(full) =~= head + tail);
        assert(Seq::<u8>::empty() + crate::bitbuf::pack_bytes(head) =~= crate::bitbuf::pack_bytes(
            head,
        ));
    }
    Ok(out)
}

/// Decompresses `data`, read with codes of at most `max_bits` bits; refused
/// unless `max_bits` is 9 to 32, and failing at a corrupt code.
pub fn decompress(data: &[u8], max_bits: usize) -> (r: Result<Vec<u8>, LzwError>)
    ensures
        !valid_max_bits(max_bits as nat) ==> r == Err::<Vec<u8>, LzwError>(LzwError::InvalidMaxBits),
        valid_max_bits(max_bits as nat) ==> match lzw_decode(data@, max_bits as nat) {
            Some(o) => (r matches Ok(v) && v@ == o),
            None => r == Err::<Vec<u8>, LzwError>(LzwError::CorruptCode),
        },
{
    if max_bits < 9 || max_bits > 32 {
        return Err(LzwError::InvalidMaxBits);
    }
    let mut d = match Decompressor::new(max_bits as u8) {
        Ok(d) => d,
        Err(e) => return Err(e),
    };
    let mut out: Vec<u8> = Vec::new();
    proof {
        assert(out@ =~= Seq::<u8>::empty());
        assert(Seq::<bool>::empty() + crate::bitbuf::unpack_bytes(data@)
            =~= crate::bitbuf::unpack_bytes(data@));
    }
    match d.decompress(data, &mut out) {
        Ok(()) => Ok(out),
        Err(e) => Err(e),
    }
}

/// `s` followed by the zero bytes that complete its last block; a whole
/// block of zeros when `s` already ends on a block boundary. The stream is
/// padded after the encoder is flushed, whatever is left, even nothing,
/// going into one last block; so the ciphertext always holds at least one
/// block, and stripping the last block's zeros never touches the bytes of
/// an earlier block.
pub open spec fn zero_padded(s: Seq<u8>) -> Seq<u8> {
    s + Seq::new((16 - s.len() % 16) as nat, |i: int| 0u8)
}

/// `s` without its trailing zero bytes.
pub open spec fn trim_zeros(s: Seq<u8>) -> Seq<u8>
    decreases s.len(),
{
    if s.len() > 0 && s.last() == 0 {
        trim_zeros(s.drop_last())
    } else {
        s
    }
}

/// Where the last block of `s` starts.
pub open spec fn final_block_start(s: Seq<u8>) -> int {
    if s.len() >= 16 {
        s.len() - 16
    } else {
        0
    }
}

/// `s` with the trailing zero bytes of its last block taken off.
pub open spec fn strip_final_block(s: Seq<u8>) -> Seq<u8> {
    s.take(final_block_start(s)) + trim_zeros(s.skip(final_block_start(s)))
}

/// Whether an enciphered stream has the right length: the initialisation
/// vector and at least one whole block, nothing more than whole blocks.
pub open spec fn cipher_length_ok(n: nat) -> bool {
    n >= 32 && n % 16 == 0
}

/// The plaintext to encipher: the compressed form of `data`, zero padded to
/// whole blocks.
pub fn compress_padded(data: &[u8], max_bits: usize) -> (r: Result<Vec<u8>, LzwError>)
    ensures
        !valid_max_bits(max_bits as nat) ==> r == Err::<Vec<u8>, LzwError>(LzwError::InvalidMaxBits),
        valid_max_bits(max_bits as nat) ==> (r matches Ok(v) && v@ == zero_padded(
            lzw_encode(data@, max_bits as nat),
        )),
{
    let mut out = match compress(data, max_bits) {
        Ok(v) => v,
        Err(e) => return Err(e),
    };
    let ghost plain = out@;
    let pad: usize = BLOCK_LEN - out.len() % BLOCK_LEN;
    let mut i: usize = 0;
    while i < pad
        invariant
            i <= pad,
            pad == 16 - plain.len() % 16,
            out@ == plain + Seq::new(i as nat, |j: int| 0u8),
        decreases pad - i,
    {
        out.push(0);
        i = i + 1;
        assert(out@ =~= plain + Seq::new(i as nat, |j: int| 0u8));
    }
    Ok(out)
}

/// Splits an enciphered stream into its initialisation vector and its
/// ciphertext blocks; refused when its length is wrong.
pub fn split_cipher(file: &[u8]) -> (r: Result<(Vec<u8>, Vec<u8>), LzwError>)
    ensures
        cipher_length_ok(file@.len()) <==> r is Ok,
        !cipher_length_ok(file@.len()) ==> r == Err::<(Vec<u8>, Vec<u8>), LzwError>(
            LzwError::CorruptCipher,
        ),
        r matches Ok((iv, body)) ==> iv@ == file@.take(16) && body@ == file@.skip(16),
{
    if file.len() < 2 * BLOCK_LEN || file.len() % BLOCK_LEN != 0 {
        return Err(LzwError::CorruptCipher);
    }
    let mut iv: Vec<u8> = Vec::new();
    let mut body: Vec<u8> = Vec::new();
    let mut i: usize = 0;
    while i < file.len()
        invariant
            i <= file.len(),
            file.len() >= 32,
            i <= 16 ==> iv@ == file@.take(i as int) && body@ == Seq::<u8>::empty(),
            i > 16 ==> iv@ == file@.take(16) && body@ == file@.subrange(16, i as int),
        decreases file.len() - i,
    {
        if i < BLOCK_LEN {
            iv.push(file[i]);
        } else {
            body.push(file[i]);
        }
        i = i + 1;
        assert(i <= 16 ==> iv@ =~= file@.take(i as int));
        assert(i > 16 ==> body@ =~= file@.subrange(16, i as int));
    }
    assert(body@ =~= file@.skip(16));
    Ok((iv, body))
}

/// Takes off the trailing zero bytes of the last block of a deciphered
/// stream.
pub fn strip_final_zeros(plain: &[u8]) -> (r: Vec<u8>)
    ensures
        r@ == strip_final_block(plain@),
{
    let cut: usize = if plain.len() >= BLOCK_LEN {
        plain.len() - BLOCK_LEN
    } else {
        0
    };
    let mut out: Vec<u8> = Vec::new();
    let mut i: usize = 0;
    while i < plain.len()
        invariant
            i <= plain.len(),
            out@ == plain@.take(i as int),
        decreases plain.len() - i,
    {
        out.push(plain[i]);
        i = i + 1;
        assert(out@ =~= plain@.take(i as int));
    }
    assert(out@ =~= plain@);
    assert(plain@ =~= plain@.take(cut as int) + plain@.skip(cut as int));
    while out.len() > cut && out[out.len() - 1] == 0
        invariant
            cut <= out.len() <= plain.len(),
            cut as int == final_block_start(plain@),
            out@.take(cut as int) == plain@.take(cut as int),
            trim_zeros(out@.skip(cut as int)) == trim_zeros(plain@.skip(cut as int)),
            out@ == out@.take(cut as int) + out@.skip(cut as int),
        decreases out.len(),
    {
        let ghost before = out@;
        out.pop();
        proof {
            let t = before.skip(cut as int);
            assert(t.drop_last() =~= out@.skip(cut as int));
            assert(out@.take(cut as int) =~= before.take(cut as int));
            assert(out@ =~= out@.take(cut as int) + out@.skip(cut as int));
        }
    }
    proof {
        let t = out@.skip(cut as int);
        assert(trim_zeros(t) == t);
    }
    out
}

/// Decompresses a deciphered stream: its last block's trailing zeros are
/// padding and are taken off first.
pub fn decompress_deciphered(plain: &[u8], max_bits: usize) -> (r: Result<Vec<u8>, LzwError>)
    ensures
        !valid_max_bits(max_bits as nat) ==> r == Err::<Vec<u8>, LzwError>(LzwError::InvalidMaxBits),
        valid_max_bits(max_bits as nat) ==> match lzw_decode(strip_final_block(plain@), max_bits as nat) {
            Some(o) => (r matches Ok(v) && v@ == o),
            None => r == Err::<Vec<u8>, LzwError>(LzwError::CorruptCode),
        },
{
    let stripped = strip_final_zeros(plain);
    decompress(stripped.as_slice(), max_bits)
}

/// Zero padding is undone by stripping the last block, when the padded
/// stream does not itself end its last partial block with a zero byte.
pub proof fn lemma_strip_zero_padded(s: Seq<u8>)
    requires
        s.len() % 16 == 0 || s.last() != 0,
    ensures
        strip_final_block(zero_padded(s)) == s,
{
    let p = zero_padded(s);
    let z = (16 - s.len() % 16) as nat;
    let cut = final_block_start(p);
    assert(p.len() == s.len() + z);
    assert(p.len() % 16 == 0) by {
        vstd::arithmetic::div_mod::lemma_fundamental_div_mod(s.len() as int, 16);
    }
    assert(p.len() >= 16);
    assert(cut == p.len() - 16);
    assert(cut <= s.len());
    lemma_trim_zero_tail(s.skip(cut), z);
    assert(p.skip(cut) =~= s.skip(cut) + Seq::new(z, |i: int| 0u8));
    if s.len() % 16 == 0 {
        assert(cut == s.len());
        assert(s.skip(cut) =~= Seq::<u8>::empty());
    } else {
        assert(s.skip(cut).last() == s.last());
    }
    assert(p.take(cut) =~= s.take(cut));
    assert(s =~= s.take(cut) + s.skip(cut));
}

/// Trailing zeros appended to a run that does not end in zero are exactly
/// what trimming takes off.
proof fn lemma_trim_zero_tail(t: Seq<u8>, z: nat)
    requires
        t.len() == 0 || t.last() != 0,
    ensures
        trim_zeros(t + Seq::new(z, |i: int| 0u8)) == t,
    decreases z,
{
    let u = t + Seq::new(z, |i: int| 0u8);
    if z == 0 {
        assert(u =~= t);
    } else {
        assert(u.drop_last() =~= t + Seq::new((z - 1) as nat, |i: int| 0u8));
        lemma_trim_zero_tail(t, (z - 1) as nat);
    }
}

} // verus!
