//! Key derivation: HMAC-SHA256, and extract-then-expand in 32-byte chunks.
use hmac::{Hmac, Mac};
use sha2::Sha256;
use vstd::prelude::*;

verus! {

/// The HMAC-SHA256 tag of `data` under `key`.
pub uninterp spec fn hmac_tag(key: Seq<u8>, data: Seq<u8>) -> Seq<u8>;

/// `Hmac::<Sha256>` of the `hmac` crate, fed `data` in one piece. Trusted: a
/// key of any length is accepted, and the tag is 32 bytes that are a function
/// of key and data.
#[verifier::external_body]
pub(crate) fn hmac_sha256(key: &[u8], data: &[u8]) -> (tag: Vec<u8>)
    ensures
        tag@ == hmac_tag(key@, data@),
        tag@.len() == 32,
{
    let mut mac = <Hmac<Sha256> as Mac>::new_from_slice(key).expect("hmac key");
    mac.update(data);
    mac.finalize().into_bytes().to_vec()
}

/// Chunk `i` of the expansion of `prk`: the tag of the chunk before it, the
/// label and the number of the chunk, counted from one in a byte.
pub open spec fn chunk(prk: Seq<u8>, info: Seq<u8>, i: nat) -> Seq<u8>
    decreases i,
{
    let prev = if i == 0 {
        Seq::empty()
    } else {
        chunk(prk, info, (i - 1) as nat)
    };
    hmac_tag(prk, prev + info + seq![((i + 1) % 256) as u8])
}

/// Chunk `i` of the secrets derived from `input`.
pub open spec fn secret(input: Seq<u8>, salt: Seq<u8>, info: Seq<u8>, i: nat) -> Seq<u8> {
    chunk(hmac_tag(salt, input), info, i)
}

/// Salt and input give one key, and that key gives every chunk: the first is
/// the tag of the label and the byte 1, each later one the tag of the chunk
/// before it, the label and the number of the chunk.
pub proof fn law_chunks_are_linked(input: Seq<u8>, salt: Seq<u8>, info: Seq<u8>, i: nat)
    ensures
        secret(input, salt, info, 0) == hmac_tag(hmac_tag(salt, input), info + seq![1u8]),
        secret(input, salt, info, i + 1) == hmac_tag(
            hmac_tag(salt, input),
            secret(input, salt, info, i) + info + seq![((i + 2) % 256) as u8],
        ),
{
    assert(Seq::<u8>::empty() + info =~= info);
}

/// The first three chunks one by one.
pub proof fn law_three_chunks(input: Seq<u8>, salt: Seq<u8>, info: Seq<u8>)
    ensures
        ({
            let key = hmac_tag(salt, input);
            let first = hmac_tag(key, info + seq![1u8]);
            let second = hmac_tag(key, first + info + seq![2u8]);
            let third = hmac_tag(key, second + info + seq![3u8]);
            &&& secret(input, salt, info, 0) == first
            &&& secret(input, salt, info, 1) == second
            &&& secret(input, salt, info, 2) == third
        }),
{
    law_chunks_are_linked(input, salt, info, 0);
    law_chunks_are_linked(input, salt, info, 1);
}

/// Derives `n` chunks of 32 bytes.
pub fn derive_secrets_n(input: &[u8], salt: &[u8], info: &[u8], n: usize) -> (result: Result<
    Vec<Vec<u8>>,
    String,
>)
    ensures
        result matches Ok(out) && out@.len() == n && forall|i: int|
            0 <= i < n ==> (#[trigger] out@[i])@ == secret(input@, salt@, info@, i as nat)
                && out@[i]@.len() == 32,
{
    let prk = hmac_sha256(salt, input);
    let mut out: Vec<Vec<u8>> = Vec::new();
    let mut prev: Vec<u8> = Vec::new();
    let mut i: usize = 0;
    while i < n
        invariant
            i <= n,
            out@.len() == i,
            prk@ == hmac_tag(salt@, input@),
            prev@ == if i == 0 {
                Seq::empty()
            } else {
                chunk(prk@, info@, (i - 1) as nat)
            },
            forall|j: int|
                0 <= j < i ==> (#[trigger] out@[j])@ == secret(input@, salt@, info@, j as nat)
                    && out@[j]@.len() == 32,
        decreases n - i,
    {
        let mut data: Vec<u8> = Vec::new();
        data.extend_from_slice(&prev);
        data.extend_from_slice(info);
        let number: u8 = ((i + 1) % 256) as u8;
        data.push(number);
        assert(data@ =~= prev@ + info@ + seq![((i + 1) % 256) as u8]);
        let next = hmac_sha256(&prk, &data);
        prev = next.clone();
        assert(prev@ =~= next@);
        out.push(next);
        i += 1;
    }
    Ok(out)
}

} // verus!
