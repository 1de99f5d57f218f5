//! AES-256 in CBC mode with PKCS#7 padding.
use aes::cipher::generic_array::GenericArray;
use aes::cipher::{BlockDecrypt, BlockEncrypt, KeyInit};
use aes::Aes256;
use vstd::prelude::*;
use vstd::string::*;

verus! {

// ---------------------------------------------------------------- blocks

/// The AES-256 encryption of a block.
pub uninterp spec fn aes_block(key: Seq<u8>, block: Seq<u8>) -> Seq<u8>;

/// The AES-256 decryption of a block.
pub uninterp spec fn aes_unblock(key: Seq<u8>, block: Seq<u8>) -> Seq<u8>;

/// `Aes256::new_from_slice` of the `aes` crate, with the error as its
/// message. Trusted: exactly the keys of 32 bytes are accepted.
#[verifier::external_body]
fn check_key(key: &[u8]) -> (result: Result<(), String>)
    ensures
        match result {
            Ok(_) => key@.len() == 32,
            Err(e) => key@.len() != 32 && e@ == "Invalid Length"@,
        },
{
    Aes256::new_from_slice(key).map(|_| ()).map_err(|e| e.to_string())
}

/// `BlockEncrypt::encrypt_block` of an `Aes256` with this key. Trusted: the
/// result is a function of key and block, and decrypting it under the same
/// key gives the block back.
#[verifier::external_body]
fn encrypt_block(key: &[u8], block: &[u8; 16]) -> (out: [u8; 16])
    requires
        key@.len() == 32,
    ensures
        out@ == aes_block(key@, block@),
        aes_unblock(key@, out@) == block@,
{
    let mut b = GenericArray::clone_from_slice(block);
    Aes256::new(GenericArray::from_slice(key)).encrypt_block(&mut b);
    b.into()
}

/// `BlockDecrypt::decrypt_block` of an `Aes256` with this key. Trusted: the
/// result is a function of key and block.
#[verifier::external_body]
fn decrypt_block(key: &[u8], block: &[u8; 16]) -> (out: [u8; 16])
    requires
        key@.len() == 32,
    ensures
        out@ == aes_unblock(key@, block@),
{
    let mut b = GenericArray::clone_from_slice(block);
    Aes256::new(GenericArray::from_slice(key)).decrypt_block(&mut b);
    b.into()
}

// ---------------------------------------------------------------- model

pub open spec fn xored(a: Seq<u8>, b: Seq<u8>) -> Seq<u8> {
    Seq::new(16, |i: int| a[i] ^ b[i])
}

/// `text` with as many bytes behind it as the next multiple of 16 is away,
/// each of them that number.
pub open spec fn padded(text: Seq<u8>) -> Seq<u8> {
    let pad = (16 - text.len() % 16) as nat;
    text + Seq::new(pad, |i: int| pad as u8)
}

/// The blocks of `data` chained from `prev` and encrypted.
pub open spec fn chained(key: Seq<u8>, prev: Seq<u8>, data: Seq<u8>) -> Seq<u8>
    decreases data.len(),
{
    if data.len() < 16 {
        Seq::empty()
    } else {
        let block = aes_block(key, xored(data.take(16), prev));
        block + chained(key, block, data.skip(16))
    }
}

/// The blocks of `data` decrypted and unchained from `prev`.
pub open spec fn unchained(key: Seq<u8>, prev: Seq<u8>, data: Seq<u8>) -> Seq<u8>
    decreases data.len(),
{
    if data.len() < 16 {
        Seq::empty()
    } else {
        let block = data.take(16);
        xored(aes_unblock(key, block), prev) + unchained(key, block, data.skip(16))
    }
}

/// `text` without its padding.
pub open spec fn unpadded(text: Seq<u8>) -> Result<Seq<u8>, Seq<char>> {
    let pad = text.last();
    if pad == 0 || pad > 16 {
        Err("invalid padding"@)
    } else {
        Ok(text.take(text.len() - pad))
    }
}

/// The error of a key that is not 32 bytes.
pub open spec fn bad_key() -> Seq<char> {
    "AES key: "@ + "Invalid Length"@
}

/// What encrypting `text` gives.
pub open spec fn cbc_encrypted(key: Seq<u8>, iv: Seq<u8>, text: Seq<u8>) -> Result<
    Seq<u8>,
    Seq<char>,
> {
    if key.len() != 32 {
        Err(bad_key())
    } else {
        Ok(chained(key, iv, padded(text)))
    }
}

/// What decrypting `data` gives.
pub open spec fn cbc_decrypted(key: Seq<u8>, iv: Seq<u8>, data: Seq<u8>) -> Result<
    Seq<u8>,
    Seq<char>,
> {
    if data.len() % 16 != 0 || data.len() == 0 {
        Err("invalid ciphertext length"@)
    } else if key.len() != 32 {
        Err(bad_key())
    } else {
        unpadded(unchained(key, iv, data))
    }
}

// ---------------------------------------------------------------- proofs

/// Every block of the chain decrypts to what was encrypted.
spec fn invertible(key: Seq<u8>, prev: Seq<u8>, data: Seq<u8>) -> bool
    decreases data.len(),
{
    data.len() < 16 || {
        let x = xored(data.take(16), prev);
        let block = aes_block(key, x);
        &&& block.len() == 16
        &&& aes_unblock(key, block) == x
        &&& invertible(key, block, data.skip(16))
    }
}

proof fn lemma_xored_twice(a: Seq<u8>, b: Seq<u8>)
    requires
        a.len() == 16,
    ensures
        xored(xored(a, b), b) == a,
{
    assert forall|i: int| 0 <= i < 16 implies (a[i] ^ b[i]) ^ b[i] == a[i] by {
        let (x, y) = (a[i], b[i]);
        assert((x ^ y) ^ y == x) by (bit_vector);
    }
    assert(xored(xored(a, b), b) =~= a);
}

proof fn lemma_chain_inverse(key: Seq<u8>, prev: Seq<u8>, data: Seq<u8>)
    requires
        data.len() % 16 == 0,
        invertible(key, prev, data),
    ensures
        unchained(key, prev, chained(key, prev, data)) == data,
        chained(key, prev, data).len() == data.len(),
    decreases data.len(),
{
    if data.len() >= 16 {
        let x = xored(data.take(16), prev);
        let block = aes_block(key, x);
        let rest = chained(key, block, data.skip(16));
        lemma_chain_inverse(key, block, data.skip(16));
        assert((block + rest).take(16) =~= block);
        assert((block + rest).skip(16) =~= rest);
        lemma_xored_twice(data.take(16), prev);
        assert(data.take(16) + data.skip(16) =~= data);
    } else {
        assert(data =~= Seq::<u8>::empty());
    }
}

proof fn lemma_unpad_inverse(text: Seq<u8>)
    ensures
        unpadded(padded(text)) == Ok::<Seq<u8>, Seq<char>>(text),
        padded(text).len() % 16 == 0,
        padded(text).len() > 0,
{
    let pad = (16 - text.len() % 16) as nat;
    assert(padded(text).last() == pad as u8);
    assert(padded(text).take(padded(text).len() - pad) =~= text);
}

/// Block `i` of the chain, when every block has its sixteen bytes.
proof fn lemma_chain_block(key: Seq<u8>, prev: Seq<u8>, data: Seq<u8>, i: int)
    requires
        data.len() % 16 == 0,
        0 <= 16 * i < data.len(),
        invertible(key, prev, data),
    ensures
        chained(key, prev, data).len() == data.len(),
        ({
            let out = chained(key, prev, data);
            let last = if i == 0 {
                prev
            } else {
                out.subrange(16 * i - 16, 16 * i)
            };
            out.subrange(16 * i, 16 * i + 16) == aes_block(
                key,
                xored(data.subrange(16 * i, 16 * i + 16), last),
            )
        }),
    decreases data.len(),
{
    lemma_chain_inverse(key, prev, data);
    let out = chained(key, prev, data);
    let block = aes_block(key, xored(data.take(16), prev));
    let rest = chained(key, block, data.skip(16));
    if i == 0 {
        assert(data.subrange(0, 16) =~= data.take(16));
        assert(out.subrange(0, 16) =~= block);
    } else {
        lemma_chain_block(key, block, data.skip(16), i - 1);
        assert(data.skip(16).subrange(16 * (i - 1), 16 * i) =~= data.subrange(
            16 * i,
            16 * i + 16,
        ));
        assert(rest.subrange(16 * (i - 1), 16 * i) =~= out.subrange(16 * i, 16 * i + 16));
        if i == 1 {
            assert(out.subrange(0, 16) =~= block);
        } else {
            assert(rest.subrange(16 * (i - 2), 16 * (i - 1)) =~= out.subrange(
                16 * i - 16,
                16 * i,
            ));
        }
    }
}

/// Byte `j` of what unchaining gives.
proof fn lemma_unchained_byte(key: Seq<u8>, prev: Seq<u8>, data: Seq<u8>, j: int)
    requires
        data.len() % 16 == 0,
        0 <= j < data.len(),
    ensures
        unchained(key, prev, data).len() == data.len(),
        unchained(key, prev, data)[j] == aes_unblock(
            key,
            data.subrange(j / 16 * 16, j / 16 * 16 + 16),
        )[j % 16] ^ (if j < 16 {
            prev[j]
        } else {
            data[j - 16]
        }),
    decreases data.len(),
{
    let block = data.take(16);
    let rest = data.skip(16);
    assert(unchained(key, block, rest).len() == rest.len()) by {
        if rest.len() > 0 {
            lemma_unchained_byte(key, block, rest, 0);
        }
    }
    if j < 16 {
        assert(data.subrange(0, 16) =~= block);
    } else {
        lemma_unchained_byte(key, block, rest, j - 16);
        assert(rest.subrange((j - 16) / 16 * 16, (j - 16) / 16 * 16 + 16) =~= data.subrange(
            j / 16 * 16,
            j / 16 * 16 + 16,
        ));
    }
}

/// Decryption undoes the chain byte by byte: a byte of the text is that of the
/// decrypted block, mixed with the byte sixteen places before it in `data`, or
/// with the vector where there is none. What is cut off are 1 to 16 bytes, as
/// many as the last byte says.
pub proof fn law_cbc_decrypted(key: Seq<u8>, iv: Seq<u8>, data: Seq<u8>, text: Seq<u8>)
    requires
        cbc_decrypted(key, iv, data) == Ok::<Seq<u8>, Seq<char>>(text),
    ensures
        key.len() == 32,
        data.len() % 16 == 0,
        text.len() < data.len() <= text.len() + 16,
        forall|j: int|
            #![trigger text[j]]
            0 <= j < text.len() ==> text[j] == aes_unblock(
                key,
                data.subrange(j / 16 * 16, j / 16 * 16 + 16),
            )[j % 16] ^ (if j < 16 {
                iv[j]
            } else {
                data[j - 16]
            }),
        data.len() - text.len() == aes_unblock(key, data.subrange(data.len() - 16, data.len() as int))[15]
            ^ (if data.len() == 16 {
            iv[15]
        } else {
            data[data.len() - 17]
        }),
{
    let all = unchained(key, iv, data);
    let n = data.len() as int;
    lemma_unchained_byte(key, iv, data, n - 1);
    assert((n - 1) / 16 * 16 == n - 16);
    assert forall|j: int| 0 <= j < text.len() implies #[trigger] text[j] == all[j] by {}
    assert forall|j: int|
        #![trigger text[j]]
        0 <= j < text.len() implies text[j] == aes_unblock(
        key,
        data.subrange(j / 16 * 16, j / 16 * 16 + 16),
    )[j % 16] ^ (if j < 16 {
        iv[j]
    } else {
        data[j - 16]
    }) by {
        lemma_unchained_byte(key, iv, data, j);
    }
}

/// What decryption refuses: a length that is no positive multiple of sixteen,
/// else a key that is not 32 bytes, else a last byte that is 0 or above 16.
pub proof fn law_cbc_refuses(key: Seq<u8>, iv: Seq<u8>, data: Seq<u8>)
    ensures
        data.len() == 0 || data.len() % 16 != 0 ==> cbc_decrypted(key, iv, data) == Err::<
            Seq<u8>,
            Seq<char>,
        >("invalid ciphertext length"@),
        data.len() > 0 && data.len() % 16 == 0 && key.len() != 32 ==> cbc_decrypted(key, iv, data)
            == Err::<Seq<u8>, Seq<char>>("AES key: "@ + "Invalid Length"@),
        data.len() > 0 && data.len() % 16 == 0 && key.len() == 32 ==> {
            let last = aes_unblock(key, data.subrange(data.len() - 16, data.len() as int))[15] ^ (
            if data.len() == 16 {
                iv[15]
            } else {
                data[data.len() - 17]
            });
            if 1 <= last <= 16 {
                cbc_decrypted(key, iv, data) is Ok
            } else {
                cbc_decrypted(key, iv, data) == Err::<Seq<u8>, Seq<char>>("invalid padding"@)
            }
        },
        key.len() != 32 ==> cbc_encrypted(key, iv, data) == Err::<Seq<u8>, Seq<char>>(
            "AES key: "@ + "Invalid Length"@,
        ),
        key.len() == 32 ==> cbc_encrypted(key, iv, data) is Ok,
{
    if data.len() > 0 && data.len() % 16 == 0 {
        let n = data.len() as int;
        lemma_unchained_byte(key, iv, data, n - 1);
        assert((n - 1) / 16 * 16 == n - 16);
    }
}

/// The padding fills up to the next multiple of sixteen, a whole block where
/// the text ends with one, and every byte of it says how long it is.
pub proof fn law_padding(text: Seq<u8>)
    ensures
        padded(text).len() == text.len() / 16 * 16 + 16,
        padded(text).take(text.len() as int) == text,
        forall|j: int|
            text.len() <= j < padded(text).len() ==> #[trigger] padded(text)[j]
                == padded(text).len() - text.len(),
{
    assert(padded(text).take(text.len() as int) =~= text);
}

// ---------------------------------------------------------------- code

/// The bytes of `data` from `at` on, sixteen of them.
fn block_at(data: &[u8], at: usize) -> (block: [u8; 16])
    requires
        at + 16 <= data@.len(),
    ensures
        block@ == data@.skip(at as int).take(16),
{
    let mut block = [0u8; 16];
    let end: usize = data.len();
    let mut i: usize = 0;
    while i < 16
        invariant
            i <= 16,
            end == data@.len(),
            at + 16 <= end,
            forall|j: int| 0 <= j < i ==> block@[j] == data@[at + j],
        decreases 16 - i,
    {
        block[i] = data[at + i];
        i += 1;
    }
    assert(block@ =~= data@.skip(at as int).take(16));
    block
}

fn xor(a: &[u8; 16], b: &[u8; 16]) -> (out: [u8; 16])
    ensures
        out@ == xored(a@, b@),
{
    let mut out = [0u8; 16];
    let mut i: usize = 0;
    while i < 16
        invariant
            i <= 16,
            forall|j: int| 0 <= j < i ==> out@[j] == a@[j] ^ b@[j],
        decreases 16 - i,
    {
        out[i] = a[i] ^ b[i];
        i += 1;
    }
    assert(out@ =~= xored(a@, b@));
    out
}

fn key_error(e: String) -> (m: String)
    ensures
        m@ == "AES key: "@ + e@,
{
    let mut m = "AES key: ".to_owned();
    m.append(e.as_str());
    m
}

/// Decrypting the result under the same key and vector gives the plaintext
/// back. Each block of the result is the encryption of a block of the padded
/// plaintext, mixed with the block of the result before it, the first one with
/// the vector.
pub fn aes_cbc_encrypt(key: &[u8], iv: &[u8; 16], plaintext: &[u8]) -> (result: Result<
    Vec<u8>,
    String,
>)
    ensures
        match (result, cbc_encrypted(key@, iv@, plaintext@)) {
            (Ok(v), Ok(w)) => v@ == w,
            (Err(e), Err(m)) => e@ == m,
            _ => false,
        },
        result matches Ok(v) ==> cbc_decrypted(key@, iv@, v@) == Ok::<Seq<u8>, Seq<char>>(
            plaintext@,
        ),
        result matches Ok(v) ==> v@.len() == plaintext@.len() / 16 * 16 + 16 && forall|i: int|
            0 <= i <= plaintext@.len() / 16 ==> #[trigger] v@.subrange(16 * i, 16 * i + 16)
                == aes_block(
                key@,
                Seq::new(
                    16,
                    |j: int|
                        padded(plaintext@)[16 * i + j] ^ (if i == 0 {
                            iv@[j]
                        } else {
                            v@[16 * i + j - 16]
                        }),
                ),
            ),
{
    match check_key(key) {
        Ok(_) => {},
        Err(e) => {
            return Err(key_error(e));
        },
    }
    let pad: u8 = 16 - (plaintext.len() % 16) as u8;
    let mut text: Vec<u8> = Vec::new();
    text.extend_from_slice(plaintext);
    let mut n: u8 = 0;
    while n < pad
        invariant
            n <= pad,
            pad == 16 - plaintext@.len() % 16,
            text@ == plaintext@ + Seq::new(n as nat, |i: int| pad),
        decreases pad - n,
    {
        text.push(pad);
        n += 1;
        assert(text@ =~= plaintext@ + Seq::new(n as nat, |i: int| pad));
    }
    assert(text@ =~= padded(plaintext@));
    proof {
        lemma_unpad_inverse(plaintext@);
    }

    let mut out: Vec<u8> = Vec::new();
    let mut prev = *iv;
    let mut at: usize = 0;
    assert(text@.skip(0) =~= text@);
    assert(out@ + chained(key@, iv@, text@) =~= chained(key@, iv@, text@));
    while at < text.len()
        invariant
            at <= text@.len(),
            at % 16 == 0,
            text@.len() % 16 == 0,
            key@.len() == 32,
            out@ + chained(key@, prev@, text@.skip(at as int)) == chained(key@, iv@, text@),
            invertible(key@, prev@, text@.skip(at as int)) ==> invertible(key@, iv@, text@),
        decreases text@.len() - at,
    {
        let ghost rest = text@.skip(at as int);
        let x = xor(&block_at(&text, at), &prev);
        let block = encrypt_block(key, &x);
        let ghost written = out@;
        out.extend_from_slice(&block);
        proof {
            assert(rest.skip(16) =~= text@.skip(at + 16));
            assert(block@ == aes_block(key@, xored(rest.take(16), prev@)));
            assert(written + (block@ + chained(key@, block@, rest.skip(16))) =~= out@ + chained(
                key@,
                block@,
                rest.skip(16),
            ));
        }
        prev = block;
        at += 16;
    }
    proof {
        lemma_chain_inverse(key@, iv@, text@);
        assert(out@ + Seq::<u8>::empty() =~= out@);
        assert forall|i: int| 0 <= i <= plaintext@.len() / 16 implies #[trigger] out@.subrange(
            16 * i,
            16 * i + 16,
        ) == aes_block(
            key@,
            Seq::new(
                16,
                |j: int|
                    text@[16 * i + j] ^ (if i == 0 {
                        iv@[j]
                    } else {
                        out@[16 * i + j - 16]
                    }),
            ),
        ) by {
            lemma_chain_block(key@, iv@, text@, i);
            let last = if i == 0 {
                iv@
            } else {
                out@.subrange(16 * i - 16, 16 * i)
            };
            assert(xored(text@.subrange(16 * i, 16 * i + 16), last) =~= Seq::new(
                16,
                |j: int|
                    text@[16 * i + j] ^ (if i == 0 {
                        iv@[j]
                    } else {
                        out@[16 * i + j - 16]
                    }),
            ));
        }
    }
    Ok(out)
}

pub fn aes_cbc_decrypt(key: &[u8], iv: &[u8; 16], ciphertext: &[u8]) -> (result: Result<
    Vec<u8>,
    String,
>)
    ensures
        match (result, cbc_decrypted(key@, iv@, ciphertext@)) {
            (Ok(v), Ok(w)) => v@ == w,
            (Err(e), Err(m)) => e@ == m,
            _ => false,
        },
{
    if ciphertext.len() % 16 != 0 || ciphertext.len() == 0 {
        return Err("invalid ciphertext length".to_owned());
    }
    match check_key(key) {
        Ok(_) => {},
        Err(e) => {
            return Err(key_error(e));
        },
    }
    let mut out: Vec<u8> = Vec::new();
    let mut prev = *iv;
    let mut at: usize = 0;
    assert(ciphertext@.skip(0) =~= ciphertext@);
    assert(out@ + unchained(key@, iv@, ciphertext@) =~= unchained(key@, iv@, ciphertext@));
    while at < ciphertext.len()
        invariant
            at <= ciphertext@.len(),
            at % 16 == 0,
            ciphertext@.len() % 16 == 0,
            key@.len() == 32,
            out@.len() == at,
            out@ + unchained(key@, prev@, ciphertext@.skip(at as int)) == unchained(
                key@,
                iv@,
                ciphertext@,
            ),
        decreases ciphertext@.len() - at,
    {
        let ghost rest = ciphertext@.skip(at as int);
        let block = block_at(ciphertext, at);
        let text = xor(&decrypt_block(key, &block), &prev);
        let ghost written = out@;
        out.extend_from_slice(&text);
        proof {
            assert(rest.skip(16) =~= ciphertext@.skip(at + 16));
            assert(written + (text@ + unchained(key@, block@, rest.skip(16))) =~= out@ + unchained(
                key@,
                block@,
                rest.skip(16),
            ));
        }
        prev = block;
        at += 16;
    }
    assert(out@ + Seq::<u8>::empty() =~= out@);
    let pad: u8 = out[out.len() - 1];
    if pad == 0 || pad > 16 {
        return Err("invalid padding".to_owned());
    }
    let keep: usize = out.len() - pad as usize;
    out.truncate(keep);
    Ok(out)
}

} // verus!
