//! X25519 key agreement and XEdDSA signatures.
//!
//! An XEdDSA signature is an Ed25519 signature made with an X25519 secret
//! key. The verifier knows the public key only as an X25519 point, which
//! leaves the sign of the Edwards point open; the top bit of the signature
//! carries it.
//!
//! Scalars are 32 little-endian bytes of a number below the group order.
use crate::text::{decimal, with_number};
use curve25519_dalek::constants::ED25519_BASEPOINT_POINT;
use curve25519_dalek::scalar::Scalar;
use curve25519_dalek::MontgomeryPoint;
use ed25519_dalek::{Signature, Verifier, VerifyingKey};
use rand::rngs::OsRng;
use rand::RngCore;
use sha2::{Digest, Sha512};
use vstd::arithmetic::power::pow;
use vstd::prelude::*;
use vstd::string::*;

verus! {

// ---------------------------------------------------------------- numbers

/// The order of the group that the base point generates.
pub open spec fn order() -> nat {
    0x1000000000000000000000000000000014def9dea2f79cd65812631a5cf5d3ednat
}

/// The number that `bytes` spell, least significant byte first.
pub open spec fn le(bytes: Seq<u8>) -> nat
    decreases bytes.len(),
{
    if bytes.len() == 0 {
        0
    } else {
        bytes[0] as nat + 256 * le(bytes.drop_first())
    }
}

/// The `n` low bytes of `v`, least significant byte first.
pub open spec fn le_bytes(v: nat, n: nat) -> Seq<u8>
    decreases n,
{
    if n == 0 {
        Seq::empty()
    } else {
        seq![(v % 256) as u8] + le_bytes(v / 256, (n - 1) as nat)
    }
}

/// The scalar of `v`.
pub open spec fn scalar(v: nat) -> Seq<u8> {
    le_bytes(v % order(), 32)
}

proof fn lemma_le_bytes(v: nat, n: nat)
    requires
        v < pow(256, n),
    ensures
        le_bytes(v, n).len() == n,
        le(le_bytes(v, n)) == v,
    decreases n,
{
    reveal(pow);
    if n > 0 {
        assert(pow(256, n) == 256 * pow(256, (n - 1) as nat));
        lemma_le_bytes(v / 256, (n - 1) as nat);
        assert(le_bytes(v, n).drop_first() =~= le_bytes(v / 256, (n - 1) as nat));
    }
}

/// The last byte weighs as much as its place says.
proof fn lemma_le_last(bytes: Seq<u8>)
    requires
        bytes.len() > 0,
    ensures
        le(bytes) >= bytes.last() * pow(256, (bytes.len() - 1) as nat),
    decreases bytes.len(),
{
    reveal(pow);
    if bytes.len() > 1 {
        let rest = bytes.drop_first();
        lemma_le_last(rest);
        assert(rest.last() == bytes.last());
        let p = pow(256, (rest.len() - 1) as nat);
        assert(pow(256, (bytes.len() - 1) as nat) == 256 * p);
        assert(bytes.last() * (256 * p) == 256 * (bytes.last() * p)) by (nonlinear_arith);
    }
}

/// Bytes spell a number place by place: what stands behind `a` weighs 256
/// times as much for every byte of `a`.
pub proof fn law_le_places(a: Seq<u8>, b: Seq<u8>)
    ensures
        le(a + b) == le(a) + pow(256, a.len()) * le(b),
        a.len() == 1 ==> le(a) == a[0],
    decreases a.len(),
{
    reveal(pow);
    if a.len() == 0 {
        assert(a + b =~= b);
    } else {
        let rest = a.drop_first();
        law_le_places(rest, b);
        assert((a + b).drop_first() =~= rest + b);
        let (p, x) = (pow(256, rest.len()), le(b) as int);
        assert(pow(256, a.len()) == 256 * p);
        assert(256 * (p * x) == (256 * p) * x) by (nonlinear_arith);
        assert(a.len() == 1 ==> le(rest) == 0);
    }
}

/// A scalar has 32 bytes, is what its bytes spell, and leaves the top bit
/// clear.
pub proof fn law_scalar(v: nat)
    ensures
        scalar(v).len() == 32,
        le(scalar(v)) == v % order(),
        scalar(v)[31] < 128,
{
    reveal_with_fuel(pow, 33);
    let w = v % order();
    assert(pow(256, 32) > order());
    lemma_le_bytes(w, 32);
    lemma_le_last(scalar(v));
    assert(128 * pow(256, 31) > order());
    if scalar(v)[31] >= 128 {
        let b = scalar(v)[31] as int;
        let p = pow(256, 31);
        assert(b * p >= 128 * p) by (nonlinear_arith)
            requires
                b >= 128,
                p > 0,
        ;
    }
}

/// A sum and a product may be reduced in between.
proof fn lemma_scalar_sum(x: nat, y: nat)
    ensures
        scalar(x + le(scalar(y))) == scalar(x + y),
{
    law_scalar(y);
    vstd::arithmetic::div_mod::lemma_add_mod_noop_right(x as int, y as int, order() as int);
}

/// The secret key with its low three bits and its top bit cleared and the
/// bit below the top one set.
pub open spec fn clamped(sk: Seq<u8>) -> Seq<u8> {
    sk.update(0, sk[0] & 248).update(31, (sk[31] & 127) | 64)
}

/// Clamping a key that is clamped changes nothing.
pub proof fn law_clamping_is_idempotent(sk: Seq<u8>)
    requires
        sk.len() == 32,
    ensures
        clamped(clamped(sk)) == clamped(sk),
{
    let (a, b) = (sk[0], sk[31]);
    assert((a & 248) & 248 == a & 248) by (bit_vector);
    assert((((b & 127) | 64) & 127) | 64 == (b & 127) | 64) by (bit_vector);
    assert(clamped(clamped(sk)) =~= clamped(sk));
}

/// The scalar of the secret key `sk`.
pub open spec fn secret_scalar(sk: Seq<u8>) -> Seq<u8> {
    scalar(le(clamped(sk)))
}

// ---------------------------------------------------------------- primitives

/// The SHA-512 digest of `data`.
pub uninterp spec fn sha512_digest(data: Seq<u8>) -> Seq<u8>;

/// The Edwards base point times the scalar `a`, compressed.
pub uninterp spec fn edwards_base(a: Seq<u8>) -> Seq<u8>;

/// The Edwards point of sign `sign` over the X25519 point `pk`, compressed.
pub uninterp spec fn edwards_of(pk: Seq<u8>, sign: u8) -> Option<Seq<u8>>;

/// Ed25519 takes `key` as a public key.
pub uninterp spec fn ed25519_key(key: Seq<u8>) -> bool;

/// Ed25519 accepts `sig` as a signature of `msg` under `key`.
pub uninterp spec fn ed25519_accepts(key: Seq<u8>, msg: Seq<u8>, sig: Seq<u8>) -> bool;

/// The X25519 public key of `sk`.
pub uninterp spec fn x25519_base(sk: Seq<u8>) -> Seq<u8>;

/// The X25519 secret that `sk` shares with the holder of `pk`.
pub uninterp spec fn x25519(sk: Seq<u8>, pk: Seq<u8>) -> Seq<u8>;

/// The second half of the Ed25519 signature of `msg` by the scalar `a` with
/// the nonce `r`.
pub open spec fn response(a: Seq<u8>, r: Seq<u8>, msg: Seq<u8>) -> Seq<u8> {
    let h = scalar(le(sha512_digest(edwards_base(r) + edwards_base(a) + msg)));
    scalar(le(r) + le(h) * le(a))
}

/// The X25519 base point.
pub open spec fn base_point() -> Seq<u8> {
    seq![9u8] + zeros(31)
}

/// `n` zero bytes.
pub open spec fn zeros(n: nat) -> Seq<u8> {
    Seq::new(n, |i: int| 0u8)
}

/// The Ed25519 signature of `msg` by the scalar `a` with the nonce `r`.
pub open spec fn ed25519_signature(a: Seq<u8>, r: Seq<u8>, msg: Seq<u8>) -> Seq<u8> {
    edwards_base(r) + response(a, r, msg)
}

/// `Sha512` of the `sha2` crate, fed `data` in one piece. Trusted: the digest
/// is a function of the data.
#[verifier::external_body]
fn sha512(data: &[u8]) -> (digest: [u8; 64])
    ensures
        digest@ == sha512_digest(data@),
{
    Sha512::digest(data).into()
}

/// `Scalar::from_bytes_mod_order_wide`. Trusted: the scalar of the number
/// that the 64 bytes spell.
#[verifier::external_body]
fn reduce_wide(bytes: &[u8; 64]) -> (s: [u8; 32])
    ensures
        s@ == scalar(le(bytes@)),
{
    Scalar::from_bytes_mod_order_wide(bytes).to_bytes()
}

/// `Scalar::from_bytes_mod_order`. Trusted: the scalar of the number that the
/// 32 bytes spell.
#[verifier::external_body]
fn reduce(bytes: &[u8; 32]) -> (s: [u8; 32])
    ensures
        s@ == scalar(le(bytes@)),
{
    Scalar::from_bytes_mod_order(*bytes).to_bytes()
}

/// The product of two `Scalar`s. Trusted: the scalar of the product of the
/// numbers.
#[verifier::external_body]
fn scalar_product(a: &[u8; 32], b: &[u8; 32]) -> (s: [u8; 32])
    ensures
        s@ == scalar(le(a@) * le(b@)),
{
    (Scalar::from_bytes_mod_order(*a) * Scalar::from_bytes_mod_order(*b)).to_bytes()
}

/// The sum of two `Scalar`s. Trusted: the scalar of the sum of the numbers.
#[verifier::external_body]
fn scalar_sum(a: &[u8; 32], b: &[u8; 32]) -> (s: [u8; 32])
    ensures
        s@ == scalar(le(a@) + le(b@)),
{
    (Scalar::from_bytes_mod_order(*a) + Scalar::from_bytes_mod_order(*b)).to_bytes()
}

/// The product of `ED25519_BASEPOINT_POINT` and a `Scalar`, compressed.
/// Trusted: 32 bytes that are a function of the scalar.
#[verifier::external_body]
fn base_mult_scalar(a: &[u8; 32]) -> (p: [u8; 32])
    ensures
        p@ == edwards_base(a@),
{
    (ED25519_BASEPOINT_POINT * Scalar::from_bytes_mod_order(*a)).compress().to_bytes()
}

/// `p` holds the bytes of `q`.
pub open spec fn same_point(p: Option<[u8; 32]>, q: Option<Seq<u8>>) -> bool {
    match (p, q) {
        (Some(a), Some(b)) => a@ == b,
        (None, None) => true,
        _ => false,
    }
}

/// `MontgomeryPoint::to_edwards`, compressed. Trusted: the outcome is a
/// function of point and sign. Over the public key of a secret key lies, with
/// the right sign, the base point times that key's scalar.
#[verifier::external_body]
fn pubkey_montgomery_to_edwards(pk: &[u8; 32], sign: u8) -> (p: Option<[u8; 32]>)
    requires
        sign <= 1,
    ensures
        same_point(p, edwards_of(pk@, sign)),
        forall|sk: Seq<u8>|
            sk.len() == 32 && pk@ == #[trigger] x25519_base(sk) && sign == edwards_base(
                secret_scalar(sk),
            )[31] >> 7 ==> same_point(p, Some(edwards_base(secret_scalar(sk)))),
{
    MontgomeryPoint(*pk).to_edwards(sign).map(|p| p.compress().to_bytes())
}

/// Whether `VerifyingKey::from_bytes` of `ed25519_dalek` succeeds. Trusted:
/// the outcome is a function of the bytes, and every multiple of the base
/// point is a key.
#[verifier::external_body]
fn is_verifying_key(key: &[u8; 32]) -> (ok: bool)
    ensures
        ok == ed25519_key(key@),
        forall|a: Seq<u8>| a.len() == 32 && key@ == #[trigger] edwards_base(a) ==> ok,
{
    VerifyingKey::from_bytes(key).is_ok()
}

/// Whether `Verifier::verify` of a `VerifyingKey` succeeds. Trusted: the
/// outcome is a function of key, message and signature, and what the scalar
/// behind the key signed, with whatever nonce, is accepted.
#[verifier::external_body]
fn verify_with_key(key: &[u8; 32], msg: &[u8], sig: &[u8; 64]) -> (ok: bool)
    requires
        ed25519_key(key@),
    ensures
        ok == ed25519_accepts(key@, msg@, sig@),
        forall|a: Seq<u8>, r: Seq<u8>|
            a.len() == 32 && r.len() == 32 && key@ == edwards_base(a) && sig@
                == #[trigger] ed25519_signature(a, r, msg@) ==> ok,
{
    let vk = VerifyingKey::from_bytes(key).expect("verifying key");
    vk.verify(msg, &Signature::from_bytes(sig)).is_ok()
}

/// `MontgomeryPoint::mul_base_clamped`. Trusted: the point is a function of
/// the secret key.
#[verifier::external_body]
fn mul_base_clamped(sk: [u8; 32]) -> (pk: [u8; 32])
    ensures
        pk@ == x25519_base(sk@),
{
    MontgomeryPoint::mul_base_clamped(sk).to_bytes()
}

/// `MontgomeryPoint::mul_clamped`. Trusted: the point is a function of both
/// keys. With the public key of a secret key, the holder of that key computes
/// the same point from the public key of `sk`, and the point is not zero: no
/// clamped key is a multiple of the prime order of the base point. The base
/// point itself gives the public key of `sk`.
#[verifier::external_body]
fn mul_clamped(pk: [u8; 32], sk: [u8; 32]) -> (shared: [u8; 32])
    ensures
        shared@ == x25519(sk@, pk@),
        forall|b: Seq<u8>|
            b.len() == 32 && pk@ == #[trigger] x25519_base(b) ==> shared@ == x25519(
                b,
                x25519_base(sk@),
            ),
        forall|b: Seq<u8>|
            b.len() == 32 && pk@ == #[trigger] x25519_base(b) ==> shared@ != zeros(32),
        pk@ == base_point() ==> shared@ == x25519_base(sk@),
{
    MontgomeryPoint(pk).mul_clamped(sk).to_bytes()
}

/// `RngCore::fill_bytes` of `rand::rngs::OsRng` on 32 bytes. The bytes come
/// from the operating system; nothing is claimed of them. Where the system
/// has none to give, `fill_bytes` panics.
#[verifier::external_body]
pub(crate) fn random_seed() -> (seed: [u8; 32]) {
    let mut seed = [0u8; 32];
    OsRng.fill_bytes(&mut seed);
    seed
}

// ---------------------------------------------------------------- lengths

/// The complaint about a length.
pub open spec fn wrong_length(what: Seq<char>, len: nat, expected: nat) -> Seq<char> {
    "wrong "@ + what + " length: "@ + decimal(len) + " (expected "@ + decimal(expected) + ")"@
}

/// The complaint names what has the wrong length, the length, and the one that
/// was expected.
pub proof fn law_length_complaint(what: Seq<char>, len: nat, expected: nat)
    ensures
        ({
            let m = wrong_length(what, len, expected);
            let at = ("wrong "@ + what + " length: "@).len() as int;
            let end = at + decimal(len).len();
            let tail = " (expected "@ + decimal(expected) + ")"@;
            &&& m.take(at) == "wrong "@ + what + " length: "@
            &&& m.subrange(at, end) == decimal(len)
            &&& m.skip(end) == tail
        }),
{
    let m = wrong_length(what, len, expected);
    let at = ("wrong "@ + what + " length: "@).len() as int;
    let end = at + decimal(len).len();
    assert(m.take(at) =~= "wrong "@ + what + " length: "@);
    assert(m.subrange(at, end) =~= decimal(len));
    assert(m.skip(end) =~= " (expected "@ + decimal(expected) + ")"@);
}

fn check_len(v: &[u8], n: usize, what: &str) -> (result: Result<(), String>)
    ensures
        match result {
            Ok(_) => v@.len() == n,
            Err(e) => v@.len() != n && e@ == wrong_length(what@, v@.len(), n as nat),
        },
{
    if v.len() != n {
        let mut m = "wrong ".to_owned();
        m.append(what);
        m.append(" length: ");
        let mut m = with_number(m.as_str(), v.len() as u64);
        m.append(" (expected ");
        let mut m = with_number(m.as_str(), n as u64);
        m.append(")");
        return Err(m);
    }
    Ok(())
}

fn to_array32(v: &[u8]) -> (a: [u8; 32])
    requires
        v@.len() == 32,
    ensures
        a@ == v@,
{
    let mut a = [0u8; 32];
    let mut i: usize = 0;
    while i < 32
        invariant
            i <= 32,
            v@.len() == 32,
            forall|j: int| 0 <= j < i ==> a@[j] == v@[j],
        decreases 32 - i,
    {
        a[i] = v[i];
        i += 1;
    }
    assert(a@ =~= v@);
    a
}

fn to_array64(v: &[u8]) -> (a: [u8; 64])
    requires
        v@.len() == 64,
    ensures
        a@ == v@,
{
    let mut a = [0u8; 64];
    let mut i: usize = 0;
    while i < 64
        invariant
            i <= 64,
            v@.len() == 64,
            forall|j: int| 0 <= j < i ==> a@[j] == v@[j],
        decreases 64 - i,
    {
        a[i] = v[i];
        i += 1;
    }
    assert(a@ =~= v@);
    a
}

// ---------------------------------------------------------------- signatures

/// The nonce for a message: the digest of the clamped key and the message,
/// or, when random bytes are given, of 0xfe, thirty-one times 0xff, key,
/// message and random bytes.
pub open spec fn nonce(key: Seq<u8>, msg: Seq<u8>, rnd: Option<Seq<u8>>) -> Seq<u8> {
    scalar(
        le(
            sha512_digest(
                match rnd {
                    None => key + msg,
                    Some(x) => seq![0xfeu8] + Seq::new(31, |i: int| 0xffu8) + key + msg + x,
                },
            ),
        ),
    )
}

/// The XEdDSA signature of `msg`: an Ed25519 signature whose top bit is the
/// sign of the signer's Edwards point.
pub open spec fn xeddsa_signature(sk: Seq<u8>, msg: Seq<u8>, rnd: Option<Seq<u8>>) -> Seq<u8> {
    let a = secret_scalar(sk);
    let r = nonce(clamped(sk), msg, rnd);
    let s = response(a, r, msg);
    edwards_base(r) + s.update(31, s[31] | (edwards_base(a)[31] & 128))
}

/// XEdDSA accepts `sig` as a signature of `msg` under the X25519 key `pk`.
pub open spec fn xeddsa_accepts(pk: Seq<u8>, msg: Seq<u8>, sig: Seq<u8>) -> bool {
    match edwards_of(pk, sig[63] >> 7) {
        None => false,
        Some(key) => ed25519_key(key) && ed25519_accepts(key, msg, sig.update(63, sig[63] & 127)),
    }
}

/// Clamps a secret key. A clamped key stays as it is.
pub fn clamp_scalar(sk: &[u8; 32]) -> (a: [u8; 32])
    ensures
        a@ == clamped(sk@),
        a@[0] == sk@[0] & 248,
        a@[31] == (sk@[31] & 127) | 64,
        forall|i: int| 1 <= i <= 30 ==> a@[i] == sk@[i],
        clamped(a@) == a@,
{
    proof {
        law_clamping_is_idempotent(sk@);
    }
    let mut a = *sk;
    a[0] = a[0] & 248;
    a[31] = (a[31] & 127) | 64;
    a
}

fn nonce_direct(sk: &[u8; 32], msg: &[u8]) -> (r: [u8; 32])
    ensures
        r@ == nonce(sk@, msg@, None),
{
    let mut data: Vec<u8> = Vec::new();
    data.extend_from_slice(sk);
    data.extend_from_slice(msg);
    assert(data@ =~= sk@ + msg@);
    reduce_wide(&sha512(&data))
}

fn nonce_rnd(sk: &[u8; 32], msg: &[u8], rnd: &[u8]) -> (r: [u8; 32])
    ensures
        r@ == nonce(sk@, msg@, Some(rnd@)),
{
    let mut data: Vec<u8> = vec![0xfe];
    data.extend_from_slice(&[0xffu8; 31]);
    data.extend_from_slice(sk);
    data.extend_from_slice(msg);
    data.extend_from_slice(rnd);
    assert(data@ =~= seq![0xfeu8] + Seq::new(31, |i: int| 0xffu8) + sk@ + msg@ + rnd@);
    reduce_wide(&sha512(&data))
}

fn challenge(r: &[u8; 32], a: &[u8; 32], msg: &[u8]) -> (h: [u8; 32])
    ensures
        h@ == scalar(le(sha512_digest(r@ + a@ + msg@))),
{
    let mut data: Vec<u8> = Vec::new();
    data.extend_from_slice(r);
    data.extend_from_slice(a);
    data.extend_from_slice(msg);
    assert(data@ =~= r@ + a@ + msg@);
    reduce_wide(&sha512(&data))
}

fn sign_internal(sk_raw: &[u8; 32], msg: &[u8], rnd: Option<&[u8; 64]>) -> (sig: [u8; 64])
    ensures
        sig@ == xeddsa_signature(
            sk_raw@,
            msg@,
            match rnd {
                Some(x) => Some(x@),
                None => None,
            },
        ),
{
    let sk = clamp_scalar(sk_raw);
    let a = reduce(&sk);
    let a_bytes = base_mult_scalar(&a);
    let sign_bit: u8 = a_bytes[31] & 128;
    let r = match rnd {
        Some(rnd) => nonce_rnd(&sk, msg, rnd),
        None => nonce_direct(&sk, msg),
    };
    let r_bytes = base_mult_scalar(&r);
    let h = challenge(&r_bytes, &a_bytes, msg);
    let s = scalar_sum(&r, &scalar_product(&h, &a));
    proof {
        lemma_scalar_sum(le(r@), le(h@) * le(a@));
    }
    let mut all: Vec<u8> = Vec::new();
    all.extend_from_slice(&r_bytes);
    all.extend_from_slice(&s);
    let mut sig = to_array64(&all);
    sig[63] = sig[63] | sign_bit;
    assert(s@ == response(a@, r@, msg@));
    assert(sig@ =~= r_bytes@ + s@.update(31, s@[31] | sign_bit));
    sig
}

/// Signs `msg` with the X25519 secret key, with 64 bytes of random data
/// mixed into the nonce when they are given.
pub fn sign(secret_key: &[u8], msg: &[u8], opt_random: Option<&[u8]>) -> (result: Result<
    [u8; 64],
    String,
>)
    ensures
        match result {
            Ok(sig) => secret_key@.len() == 32 && match opt_random {
                Some(r) => r@.len() == 64 && sig@ == xeddsa_signature(
                    secret_key@,
                    msg@,
                    Some(r@),
                ),
                None => sig@ == xeddsa_signature(secret_key@, msg@, None),
            },
            Err(e) => if secret_key@.len() != 32 {
                e@ == wrong_length("secret key"@, secret_key@.len(), 32)
            } else {
                opt_random matches Some(r) && r@.len() != 64 && e@ == wrong_length(
                    "random data"@,
                    r@.len(),
                    64,
                )
            },
        },
        result matches Ok(sig) ==> {
            let key = secret_key@.update(0, secret_key@[0] & 248).update(
                31,
                (secret_key@[31] & 127) | 64,
            );
            let first = edwards_base(
                scalar(
                    le(
                        sha512_digest(
                            match opt_random {
                                None => key + msg@,
                                Some(x) => seq![0xfeu8] + Seq::new(31, |i: int| 0xffu8) + key + msg@
                                    + x@,
                            },
                        ),
                    ),
                ),
            );
            &&& sig@.take(32) == first
            &&& sig@[63] & 128 == edwards_base(scalar(le(key)))[31] & 128
        },
        secret_key@.len() == 32 && (opt_random matches Some(r) ==> r@.len() == 64) ==> result is Ok,
{
    check_len(secret_key, 32, "secret key")?;
    proof {
        if secret_key@.len() == 32 {
            let rnd = match opt_random {
                Some(x) => Some(x@),
                None => None,
            };
            if xeddsa_signature(secret_key@, msg@, rnd).len() == 64 {
                law_signature_halves(secret_key@, msg@, rnd);
            }
        }
    }
    let sk = to_array32(secret_key);
    match opt_random {
        Some(r) => {
            check_len(r, 64, "random data")?;
            let rnd = to_array64(r);
            Ok(sign_internal(&sk, msg, Some(&rnd)))
        },
        None => Ok(sign_internal(&sk, msg, None)),
    }
}

/// What was signed is accepted: the signature of `sk`, without its top bit,
/// is the Ed25519 signature under the key that `pk` and the top bit give.
proof fn lemma_signed(sk: Seq<u8>, msg: Seq<u8>, rnd: Option<Seq<u8>>)
    requires
        sk.len() == 32,
        xeddsa_signature(sk, msg, rnd).len() == 64,
    ensures
        ({
            let a = secret_scalar(sk);
            let r = nonce(clamped(sk), msg, rnd);
            let sig = xeddsa_signature(sk, msg, rnd);
            &&& a.len() == 32
            &&& r.len() == 32
            &&& sig[63] >> 7 == edwards_base(a)[31] >> 7
            &&& sig.update(63, sig[63] & 127) == ed25519_signature(a, r, msg)
        }),
{
    let a = secret_scalar(sk);
    let r = nonce(clamped(sk), msg, rnd);
    law_scalar(le(clamped(sk)));
    law_scalar(
        le(
            sha512_digest(
                match rnd {
                    None => clamped(sk) + msg,
                    Some(x) => seq![0xfeu8] + Seq::new(31, |i: int| 0xffu8) + clamped(sk) + msg + x,
                },
            ),
        ),
    );
    let h = scalar(le(sha512_digest(edwards_base(r) + edwards_base(a) + msg)));
    law_scalar(le(r) + le(h) * le(a));
    let top = response(a, r, msg)[31];
    let k = edwards_base(a)[31];
    assert((top | (k & 128)) >> 7 == k >> 7) by (bit_vector)
        requires
            top < 128,
    ;
    assert((top | (k & 128)) & 127 == top) by (bit_vector)
        requires
            top < 128,
    ;
    let sig = xeddsa_signature(sk, msg, rnd);
    assert(sig.update(63, sig[63] & 127) =~= ed25519_signature(a, r, msg));
}

/// The two halves of a signature. The first is the base point times the nonce,
/// the digest of the clamped key and the message, with 0xfe, thirty-one times
/// 0xff in front and the random bytes behind where those are given. The second
/// is, without its top bit, the nonce plus the product of the key's scalar and
/// the digest of the first half, the key's Edwards point and the message; its
/// top bit is that of the point.
pub proof fn law_signature_halves(sk: Seq<u8>, msg: Seq<u8>, rnd: Option<Seq<u8>>)
    requires
        sk.len() == 32,
        xeddsa_signature(sk, msg, rnd).len() == 64,
    ensures
        ({
            let sig = xeddsa_signature(sk, msg, rnd);
            let secret = sk.update(0, sk[0] & 248).update(31, (sk[31] & 127) | 64);
            let digest = sha512_digest(
                match rnd {
                    None => secret + msg,
                    Some(x) => seq![0xfeu8] + Seq::new(31, |i: int| 0xffu8) + secret + msg + x,
                },
            );
            let r = scalar(le(digest));
            let a = scalar(le(secret));
            let point = edwards_base(a);
            let h = scalar(le(sha512_digest(sig.take(32) + point + msg)));
            let second = sig.skip(32);
            &&& sig.take(32) == edwards_base(r)
            &&& le(second.update(31, second[31] & 127)) == (le(r) + le(h) * le(a)) % order()
            &&& sig[63] & 128 == point[31] & 128
        }),
{
    let a = secret_scalar(sk);
    let r = nonce(clamped(sk), msg, rnd);
    let sig = xeddsa_signature(sk, msg, rnd);
    lemma_signed(sk, msg, rnd);
    let h = scalar(le(sha512_digest(edwards_base(r) + edwards_base(a) + msg)));
    let v = le(r) + le(h) * le(a);
    law_scalar(v);
    let s = response(a, r, msg);
    let k = edwards_base(a)[31];
    let top = s[31];
    assert((top | (k & 128)) & 127 == top) by (bit_vector)
        requires
            top < 128,
    ;
    assert((top | (k & 128)) & 128 == k & 128) by (bit_vector)
        requires
            top < 128,
    ;
    assert(sig.take(32) =~= edwards_base(r));
    let second = sig.skip(32);
    assert(second.update(31, second[31] & 127) =~= s);
}

/// A signature is accepted when the X25519 key has an Edwards point of the
/// sign that the top bit says, Ed25519 takes that point as a key, and accepts
/// under it the signature without the bit; and only then.
pub proof fn law_verification(pk: Seq<u8>, msg: Seq<u8>, sig: Seq<u8>, plain: Seq<u8>)
    requires
        sig.len() == 64,
        plain.len() == 64,
        plain.take(63) == sig.take(63),
        plain[63] == sig[63] & 127,
    ensures
        xeddsa_accepts(pk, msg, sig) <==> {
            let point = if sig[63] >= 128 {
                edwards_of(pk, 1)
            } else {
                edwards_of(pk, 0)
            };
            point matches Some(key) && ed25519_key(key) && ed25519_accepts(key, msg, plain)
        },
{
    let top = sig[63];
    assert(top >> 7 == if top >= 128 {
        1u8
    } else {
        0u8
    }) by (bit_vector);
    assert forall|i: int| 0 <= i < 63 implies plain[i] == sig[i] by {
        assert(plain[i] == plain.take(63)[i]);
        assert(sig[i] == sig.take(63)[i]);
    }
    assert(plain =~= sig.update(63, sig[63] & 127));
}

/// Verifies an XEdDSA signature under an X25519 public key. What `sign` made
/// with the secret key of that public key is accepted.
pub fn verify(public_key: &[u8], msg: &[u8], signature: &[u8]) -> (result: Result<bool, String>)
    ensures
        match result {
            Ok(ok) => public_key@.len() == 32 && signature@.len() == 64 && ok == xeddsa_accepts(
                public_key@,
                msg@,
                signature@,
            ),
            Err(e) => if public_key@.len() != 32 {
                e@ == wrong_length("public key"@, public_key@.len(), 32)
            } else {
                signature@.len() != 64 && e@ == wrong_length(
                    "signature"@,
                    signature@.len(),
                    64,
                )
            },
        },
        forall|sk: Seq<u8>, rnd: Option<Seq<u8>>|
            sk.len() == 32 && public_key@.len() == 32 && signature@.len() == 64 && public_key@
                == x25519_base(sk) && signature@ == #[trigger] xeddsa_signature(sk, msg@, rnd)
                ==> result == Ok::<bool, String>(true),
{
    check_len(public_key, 32, "public key")?;
    check_len(signature, 64, "signature")?;
    let pk = to_array32(public_key);
    let mut sig = to_array64(signature);
    let sign_bit: u8 = sig[63] & 128;
    let sign: u8 = sign_bit >> 7;
    proof {
        let top = sig@[63];
        assert((top & 128) >> 7 == top >> 7 && top >> 7 <= 1) by (bit_vector);
    }
    let a_bytes = match pubkey_montgomery_to_edwards(&pk, sign) {
        Some(p) => p,
        None => {
            proof {
                assert forall|sk: Seq<u8>, rnd: Option<Seq<u8>>|
                    sk.len() == 32 && public_key@ == x25519_base(sk) && signature@
                        == #[trigger] xeddsa_signature(sk, msg@, rnd) implies false by {
                    lemma_signed(sk, msg@, rnd);
                }
            }
            return Ok(false);
        },
    };
    sig[63] = sig[63] & 127;
    assert(sig@ =~= signature@.update(63, signature@[63] & 127));
    proof {
        assert forall|sk: Seq<u8>, rnd: Option<Seq<u8>>|
            sk.len() == 32 && public_key@ == x25519_base(sk) && signature@
                == #[trigger] xeddsa_signature(sk, msg@, rnd) implies {
            let a = secret_scalar(sk);
            let r = nonce(clamped(sk), msg@, rnd);
            &&& a.len() == 32
            &&& r.len() == 32
            &&& a_bytes@ == edwards_base(a)
            &&& sig@ == ed25519_signature(a, r, msg@)
        } by {
            lemma_signed(sk, msg@, rnd);
        }
    }
    if !is_verifying_key(&a_bytes) {
        return Ok(false);
    }
    Ok(verify_with_key(&a_bytes, msg, &sig))
}

// ---------------------------------------------------------------- agreement

/// The public key of a seed, and the seed as the secret key.
pub fn generate_keypair(seed: &[u8]) -> (result: Result<([u8; 32], [u8; 32]), String>)
    ensures
        match result {
            Ok((public, secret)) => seed@.len() == 32 && public@ == x25519_base(seed@) && secret@
                == seed@,
            Err(e) => seed@.len() != 32 && e@ == wrong_length("seed"@, seed@.len(), 32),
        },
{
    check_len(seed, 32, "seed")?;
    let seed32 = to_array32(seed);
    let public = mul_base_clamped(seed32);
    Ok((public, seed32))
}

/// What key agreement gives.
pub open spec fn agreed(sk: Seq<u8>, pk: Seq<u8>) -> Result<Seq<u8>, Seq<char>> {
    if sk.len() != 32 {
        Err(wrong_length("secret key"@, sk.len(), 32))
    } else if pk.len() != 32 {
        Err(wrong_length("public key"@, pk.len(), 32))
    } else {
        Ok(x25519(sk, pk))
    }
}

/// The secret that the holders of two key pairs share. Whoever holds the
/// secret key of `public_key` computes the same from the public key of
/// `secret_key`; it is never zero. With the base point it is the public key
/// of `secret_key`.
pub fn scalar_multiply(secret_key: &[u8], public_key: &[u8]) -> (result: Result<[u8; 32], String>)
    ensures
        match (result, agreed(secret_key@, public_key@)) {
            (Ok(shared), Ok(s)) => shared@ == s,
            (Err(e), Err(m)) => e@ == m,
            _ => false,
        },
        match result {
            Ok(shared) => secret_key@.len() == 32 && public_key@.len() == 32 && shared@ == x25519(
                secret_key@,
                public_key@,
            ),
            Err(e) => if secret_key@.len() != 32 {
                e@ == wrong_length("secret key"@, secret_key@.len(), 32)
            } else {
                public_key@.len() != 32 && e@ == wrong_length("public key"@, public_key@.len(), 32)
            },
        },
        result matches Ok(shared) ==> forall|b: Seq<u8>|
            b.len() == 32 && public_key@ == #[trigger] x25519_base(b) ==> shared@ == x25519(
                b,
                x25519_base(secret_key@),
            ) && shared@ != zeros(32),
        result matches Ok(shared) ==> public_key@ == base_point() ==> shared@ == x25519_base(
            secret_key@,
        ),
{
    check_len(secret_key, 32, "secret key")?;
    check_len(public_key, 32, "public key")?;
    let sk32 = to_array32(secret_key);
    let pk32 = to_array32(public_key);
    Ok(mul_clamped(pk32, sk32))
}

} // verus!
