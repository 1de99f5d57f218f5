//! Base64 text, standard alphabet with padding.
use base64::engine::general_purpose::STANDARD;
use base64::Engine;
use vstd::prelude::*;

verus! {

/// The standard base64 text of `data`.
pub uninterp spec fn base64_text(data: Seq<u8>) -> Seq<char>;

/// What standard base64 decoding of `text` gives: the bytes, or the message
/// of the error.
pub uninterp spec fn base64_bytes(text: Seq<char>) -> Result<Seq<u8>, Seq<char>>;

/// `text` is base64 of `data`.
pub open spec fn decodes_to(text: Seq<char>, data: Seq<u8>) -> bool {
    base64_bytes(text) == Ok::<Seq<u8>, Seq<char>>(data)
}

/// The length of the base64 text of `n` bytes: four characters for every three
/// bytes that are begun.
pub open spec fn text_len(n: nat) -> nat {
    (n + 2) / 3 * 4
}

/// `base64::Engine::encode` of the engine `STANDARD`. Trusted: the text is a
/// function of the bytes, has four characters for every three bytes that are
/// begun, and `STANDARD` decodes it to the same bytes.
#[verifier::external_body]
pub fn b64(data: &[u8]) -> (text: String)
    ensures
        text@ == base64_text(data@),
        text@.len() == text_len(data@.len()),
        decodes_to(text@, data@),
{
    STANDARD.encode(data)
}

/// `base64::Engine::decode` of the engine `STANDARD`, with the error as its
/// message. Trusted: the outcome is a function of the text.
#[verifier::external_body]
pub fn unb64(data: &str) -> (result: Result<Vec<u8>, String>)
    ensures
        match (result, base64_bytes(data@)) {
            (Ok(v), Ok(d)) => v@ == d,
            (Err(e), Err(m)) => e@ == m,
            _ => false,
        },
{
    STANDARD.decode(data).map_err(|e| e.to_string())
}

} // verus!
