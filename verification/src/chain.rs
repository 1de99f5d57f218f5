//! Chains of message keys.
//!
//! A chain key gives one message key and the next chain key. Keys of
//! messages that have not arrived yet are kept until they do.
use crate::kdf::{hmac_sha256, hmac_tag};
use crate::session::{Chain, ChainKeyView, ChainView};
use crate::util::{b64, base64_bytes, base64_text, decodes_to, unb64};
use vstd::prelude::*;

verus! {

// ---------------------------------------------------------------- model

/// The chain key `n` steps after `key`.
pub open spec fn chain_key_after(key: Seq<u8>, n: nat) -> Seq<u8>
    decreases n,
{
    if n == 0 {
        key
    } else {
        hmac_tag(chain_key_after(key, (n - 1) as nat), seq![0x02u8])
    }
}

/// The message key that the chain key `n` steps after `key` gives.
pub open spec fn message_key(key: Seq<u8>, n: nat) -> Seq<u8> {
    hmac_tag(chain_key_after(key, n), seq![0x01u8])
}

/// The message keys of `kept` and, in their places, the ones for the counters
/// above `from` up to `to` that the chain key `key` at `from` gives.
pub open spec fn with_keys(kept: Map<i64, Seq<char>>, key: Seq<u8>, from: i64, to: i64) -> Map<
    i64,
    Seq<char>,
> {
    Map::new(
        |i: i64| from < i <= to || kept.contains_key(i),
        |i: i64|
            if from < i <= to {
                base64_text(message_key(key, (i - from - 1) as nat))
            } else {
                kept[i]
            },
    )
}

/// The chain once the message keys up to `counter` are derived.
pub open spec fn filled(chain: ChainView, counter: i64) -> Result<ChainView, Seq<char>> {
    let from = chain.chainKey.counter;
    if counter <= from {
        Ok(chain)
    } else if counter - from > 2000 {
        Err("Over 2000 messages into the future!"@)
    } else {
        match base64_bytes(chain.chainKey.key) {
            Err(e) => Err(e),
            Ok(key) => Ok(
                ChainView {
                    chainKey: ChainKeyView {
                        counter,
                        key: base64_text(chain_key_after(key, (counter - from) as nat)),
                    },
                    messageKeys: with_keys(chain.messageKeys, key, from, counter),
                    ..chain
                },
            ),
        }
    }
}

/// The chain once the message key for `counter` is taken out of it, and that
/// key.
pub open spec fn key_taken(chain: ChainView, counter: i64) -> Result<
    (ChainView, Seq<u8>),
    Seq<char>,
> {
    match filled(chain, counter) {
        Err(e) => Err(e),
        Ok(full) => {
            let rest = ChainView { messageKeys: full.messageKeys.remove(counter), ..full };
            if counter > chain.chainKey.counter {
                let key = base64_bytes(chain.chainKey.key)->Ok_0;
                Ok((rest, message_key(key, (counter - chain.chainKey.counter - 1) as nat)))
            } else if !chain.messageKeys.contains_key(counter) {
                Err("message key not found"@)
            } else {
                match base64_bytes(chain.messageKeys[counter]) {
                    Err(e) => Err(e),
                    Ok(key) => Ok((rest, key)),
                }
            }
        },
    }
}

/// The chain has the chain key of the sequence that starts with `start` behind
/// its counter, so that it can go on with the sequence.
pub open spec fn goes_on(chain: ChainView, start: Seq<u8>) -> bool {
    chain.chainKey.counter >= -1 && decodes_to(
        chain.chainKey.key,
        chain_key_after(start, (chain.chainKey.counter + 1) as nat),
    )
}

/// The chain has key `counter` of the sequence that starts with `start` to
/// give: it keeps it, or goes on to it in at most 2000 steps.
pub open spec fn offers(chain: ChainView, start: Seq<u8>, counter: i64) -> bool {
    counter >= 0 && if counter <= chain.chainKey.counter {
        chain.messageKeys.contains_key(counter) && decodes_to(
            chain.messageKeys[counter],
            message_key(start, counter as nat),
        )
    } else {
        goes_on(chain, start) && counter - chain.chainKey.counter <= 2000
    }
}

/// `after` is what is left of `chain` once `counter` was taken: it offers
/// every other key that `chain` offers, and goes on where `chain` does.
pub open spec fn offers_the_rest(chain: ChainView, counter: i64, after: ChainView) -> bool {
    &&& forall|start: Seq<u8>, other: i64|
        other != counter && #[trigger] offers(chain, start, other) ==> offers(after, start, other)
    &&& forall|start: Seq<u8>| #[trigger] goes_on(chain, start) ==> goes_on(after, start)
}

// ---------------------------------------------------------------- laws

proof fn lemma_chain_key_after_adds(key: Seq<u8>, a: nat, b: nat)
    ensures
        chain_key_after(chain_key_after(key, a), b) == chain_key_after(key, a + b),
    decreases b,
{
    if b > 0 {
        lemma_chain_key_after_adds(key, a, (b - 1) as nat);
    }
}

/// Two chains of one sequence give the same message key for a counter,
/// whatever each of them has given before: the key depends on the start of
/// the sequence and the counter alone.
pub proof fn law_key_taken(chain: ChainView, start: Seq<u8>, counter: i64)
    requires
        offers(chain, start, counter),
    ensures
        key_taken(chain, counter) matches Ok((_, key)) && key == message_key(
            start,
            counter as nat,
        ),
{
    let from = chain.chainKey.counter;
    if counter > from {
        lemma_chain_key_after_adds(start, (from + 1) as nat, (counter - from - 1) as nat);
    }
}

/// A message key is given once: after it was taken, asking for it again is an
/// error.
pub proof fn law_key_taken_once(chain: ChainView, counter: i64)
    requires
        key_taken(chain, counter) is Ok,
    ensures
        key_taken(key_taken(chain, counter)->Ok_0.0, counter) == Err::<
            (ChainView, Seq<u8>),
            Seq<char>,
        >("message key not found"@),
{
}

/// Keys that were skipped are kept: taking a key leaves the others that were
/// kept as they are, and adds every key up to the one that was taken.
pub proof fn law_skipped_keys_kept(chain: ChainView, counter: i64, other: i64)
    requires
        key_taken(chain, counter) is Ok,
        other != counter,
    ensures
        ({
            let kept = key_taken(chain, counter)->Ok_0.0.messageKeys;
            &&& kept.contains_key(other) <==> chain.messageKeys.contains_key(other)
                || chain.chainKey.counter < other < counter
            &&& chain.messageKeys.contains_key(other) && other <= chain.chainKey.counter
                ==> kept[other] == chain.messageKeys[other]
        }),
{
}

/// A chain moves on by one tag per message. `keys` are chain keys in a row,
/// the first one that of `chain`, each later one the tag of the byte 2 under
/// the one before it. Filling the chain up to `counter` uses one key per
/// counter, keeps the tag of the byte 1 under it as the message key, and ends
/// with the last key; all else that the chain keeps stays. The key that is
/// taken for `counter` is the last of those message keys.
pub proof fn law_chain_steps(chain: ChainView, counter: i64, keys: Seq<Seq<u8>>)
    requires
        chain.chainKey.counter < counter,
        counter - chain.chainKey.counter <= 2000,
        keys.len() == counter - chain.chainKey.counter + 1,
        base64_bytes(chain.chainKey.key) == Ok::<Seq<u8>, Seq<char>>(keys[0]),
        forall|i: int|
            0 < i < keys.len() ==> #[trigger] keys[i] == hmac_tag(keys[i - 1], seq![0x02u8]),
    ensures
        filled(chain, counter) matches Ok(full) && {
            let from = chain.chainKey.counter;
            &&& full.chainType == chain.chainType
            &&& full.chainKey.counter == counter
            &&& full.chainKey.key == base64_text(keys[counter - from])
            &&& forall|i: i64|
                #![trigger full.messageKeys.contains_key(i)]
                full.messageKeys.contains_key(i) <==> from < i <= counter
                    || chain.messageKeys.contains_key(i)
            &&& forall|i: i64|
                from < i <= counter ==> #[trigger] full.messageKeys[i] == base64_text(
                    hmac_tag(keys[i - from - 1], seq![0x01u8]),
                )
            &&& forall|i: i64|
                !(from < i <= counter) && chain.messageKeys.contains_key(i)
                    ==> #[trigger] full.messageKeys[i] == chain.messageKeys[i]
            &&& key_taken(chain, counter) == Ok::<(ChainView, Seq<u8>), Seq<char>>(
                (
                    ChainView { messageKeys: full.messageKeys.remove(counter), ..full },
                    hmac_tag(keys[counter - from - 1], seq![0x01u8]),
                ),
            )
        },
{
    let from = chain.chainKey.counter;
    assert forall|i: int| 0 <= i < keys.len() implies #[trigger] keys[i] == chain_key_after(
        keys[0],
        i as nat,
    ) by {
        lemma_keys_in_a_row(keys, i as nat);
    }
}

proof fn lemma_keys_in_a_row(keys: Seq<Seq<u8>>, i: nat)
    requires
        i < keys.len(),
        forall|i: int|
            0 < i < keys.len() ==> #[trigger] keys[i] == hmac_tag(keys[i - 1], seq![0x02u8]),
    ensures
        keys[i as int] == chain_key_after(keys[0], i),
    decreases i,
{
    if i > 0 {
        lemma_keys_in_a_row(keys, (i - 1) as nat);
    }
}

/// A chain stays as it is when it has come to the counter already; it is not
/// filled more than 2000 counters at once, nor from a key that does not
/// decode.
pub proof fn law_filling_has_limits(chain: ChainView, counter: i64)
    ensures
        counter <= chain.chainKey.counter ==> filled(chain, counter) == Ok::<ChainView, Seq<char>>(
            chain,
        ),
        counter - chain.chainKey.counter > 2000 ==> filled(chain, counter) == Err::<
            ChainView,
            Seq<char>,
        >("Over 2000 messages into the future!"@),
        0 < counter - chain.chainKey.counter <= 2000 ==> match base64_bytes(chain.chainKey.key) {
            Err(e) => filled(chain, counter) == Err::<ChainView, Seq<char>>(e),
            Ok(_) => filled(chain, counter) is Ok,
        },
        filled(chain, counter) matches Err(e) ==> key_taken(chain, counter) == Err::<
            (ChainView, Seq<u8>),
            Seq<char>,
        >(e),
{
}

/// Of the counters that a chain has passed, it gives the keys that it kept and
/// no others; what it gives is gone from it, and nothing else changes.
pub proof fn law_kept_keys_are_given(chain: ChainView, counter: i64)
    requires
        counter <= chain.chainKey.counter,
    ensures
        key_taken(chain, counter) == if !chain.messageKeys.contains_key(counter) {
            Err("message key not found"@)
        } else {
            match base64_bytes(chain.messageKeys[counter]) {
                Err(e) => Err(e),
                Ok(key) => Ok(
                    (
                        ChainView { messageKeys: chain.messageKeys.remove(counter), ..chain },
                        key,
                    ),
                ),
            }
        },
{
}

// ---------------------------------------------------------------- code

/// Derives and keeps the message keys up to `counter`. The texts that are
/// kept decode to the keys.
pub(crate) fn fill_message_keys(chain: &mut Chain, counter: i64) -> (result: Result<(), String>)
    ensures
        match (result, filled(old(chain)@, counter)) {
            (Ok(_), Ok(c)) => final(chain)@ == c,
            (Err(e), Err(m)) => e@ == m && final(chain)@ == old(chain)@,
            _ => false,
        },
        result is Ok ==> fills(old(chain)@, counter, final(chain)@),
{
    let from: i64 = chain.chainKey.counter;
    if counter <= from {
        return Ok(());
    }
    if (counter as i128) - (from as i128) > 2000 {
        return Err("Over 2000 messages into the future!".to_owned());
    }
    let ghost start = base64_bytes(chain.chainKey.key@);
    let ghost key = start->Ok_0;
    let ghost was = chain@;
    let mut first = true;
    assert(with_keys(was.messageKeys, key, from, from) =~= was.messageKeys);
    while chain.chainKey.counter < counter
        invariant
            from <= chain.chainKey.counter <= counter,
            from < counter,
            counter - from <= 2000,
            was == old(chain)@,
            from == was.chainKey.counter,
            chain.chainType == was.chainType,
            start == base64_bytes(was.chainKey.key),
            first == (chain.chainKey.counter == from),
            first ==> chain@ == was,
            !first ==> start == Ok::<Seq<u8>, Seq<char>>(key) && decodes_to(
                chain.chainKey.key@,
                chain_key_after(key, (chain.chainKey.counter - from) as nat),
            ) && chain.chainKey.key@ == base64_text(
                chain_key_after(key, (chain.chainKey.counter - from) as nat),
            ),
            start is Ok ==> key == start->Ok_0 && chain@.messageKeys == with_keys(
                was.messageKeys,
                key,
                from,
                chain.chainKey.counter,
            ),
            forall|i: i64|
                from < i <= chain.chainKey.counter ==> decodes_to(
                    #[trigger] chain@.messageKeys[i],
                    message_key(key, (i - from - 1) as nat),
                ),
        decreases counter - chain.chainKey.counter,
    {
        let ghost here = chain@;
        let ck = unb64(chain.chainKey.key.as_str())?;
        let message_key = hmac_sha256(&ck, &[0x01u8]);
        let next_chain_key = hmac_sha256(&ck, &[0x02u8]);
        let next: i64 = chain.chainKey.counter + 1;
        proof {
            assert([0x01u8]@ =~= seq![0x01u8]);
            assert([0x02u8]@ =~= seq![0x02u8]);
        }
        chain.messageKeys.insert(next, b64(&message_key));
        chain.chainKey.key = b64(&next_chain_key);
        chain.chainKey.counter = next;
        first = false;
        proof {
            assert(start == Ok::<Seq<u8>, Seq<char>>(key));
            let n = (here.chainKey.counter - from) as nat;
            assert(ck@ == chain_key_after(key, n));
            assert((next - from) as nat == n + 1);
            assert(next_chain_key@ == chain_key_after(key, n + 1));
            assert(chain@.messageKeys =~= here.messageKeys.insert(
                next,
                base64_text(message_key@),
            ));
            assert(chain@.messageKeys =~= with_keys(was.messageKeys, key, from, next));
            assert forall|i: i64| from < i <= next implies decodes_to(
                #[trigger] chain@.messageKeys[i],
                self::message_key(key, (i - from - 1) as nat),
            ) by {
                if i < next {
                    assert(chain@.messageKeys[i] == here.messageKeys[i]);
                }
            }
        }
    }
    Ok(())
}

/// Takes the message key for `counter` out of the chain, deriving keys as far
/// as needed. The chain stays with the sequence of keys that it belongs to,
/// and the text of its new chain key decodes.
pub(crate) fn take_message_key(chain: &mut Chain, counter: i64) -> (result: Result<
    Vec<u8>,
    String,
>)
    ensures
        match (result, key_taken(old(chain)@, counter)) {
            (Ok(key), Ok((c, k))) => key@ == k && final(chain)@ == c,
            (Err(e), Err(m)) => e@ == m && final(chain)@ == old(chain)@,
            _ => false,
        },
        result is Ok ==> offers_the_rest(old(chain)@, counter, final(chain)@),
        result is Ok && counter > old(chain)@.chainKey.counter ==> decodes_to(
            final(chain)@.chainKey.key,
            chain_key_after(
                base64_bytes(old(chain)@.chainKey.key)->Ok_0,
                (counter - old(chain)@.chainKey.counter) as nat,
            ),
        ),
{
    let ghost was = chain@;
    fill_message_keys(chain, counter)?;
    let ghost full = chain@;
    let key = match chain.messageKeys.get(&counter) {
        Some(text) => {
            assert(chain@.messageKeys.contains_key(counter));
            assert(chain@.messageKeys[counter] == text@);
            unb64(text.as_str())?
        },
        None => {
            assert(!chain@.messageKeys.contains_key(counter));
            return Err("message key not found".to_owned());
        },
    };
    chain.messageKeys.remove(&counter);
    proof {
        assert(chain@.messageKeys =~= full.messageKeys.remove(counter));
        assert forall|start: Seq<u8>, other: i64|
            other != counter && #[trigger] offers(was, start, other) implies offers(
            chain@,
            start,
            other,
        ) by {
            lemma_offers_on(was, full, counter, start, other);
        }
        assert forall|start: Seq<u8>| #[trigger] goes_on(was, start) implies goes_on(
            chain@,
            start,
        ) by {
            lemma_goes_on(was, full, counter, start);
        }
    }
    Ok(key)
}

/// The texts that filling `chain` up to `counter` brought decode.
pub open spec fn fills(chain: ChainView, counter: i64, full: ChainView) -> bool {
    filled(chain, counter) == Ok::<ChainView, Seq<char>>(full) && (counter
        > chain.chainKey.counter ==> {
        let key = base64_bytes(chain.chainKey.key)->Ok_0;
        let from = chain.chainKey.counter;
        &&& decodes_to(full.chainKey.key, chain_key_after(key, (counter - from) as nat))
        &&& forall|i: i64|
            from < i <= counter ==> decodes_to(
                #[trigger] full.messageKeys[i],
                message_key(key, (i - from - 1) as nat),
            )
    })
}

proof fn lemma_goes_on(chain: ChainView, full: ChainView, counter: i64, start: Seq<u8>)
    requires
        fills(chain, counter, full),
        goes_on(chain, start),
    ensures
        goes_on(full, start),
{
    let from = chain.chainKey.counter;
    if counter > from {
        lemma_chain_key_after_adds(start, (from + 1) as nat, (counter - from) as nat);
    }
}

/// Filling a chain leaves it all that it offers.
pub proof fn lemma_offers_on(
    chain: ChainView,
    full: ChainView,
    counter: i64,
    start: Seq<u8>,
    other: i64,
)
    requires
        fills(chain, counter, full),
        offers(chain, start, other),
    ensures
        offers(full, start, other),
{
    let from = chain.chainKey.counter;
    if other > from && counter > from {
        lemma_goes_on(chain, full, counter, start);
        if other <= counter {
            lemma_chain_key_after_adds(start, (from + 1) as nat, (other - from - 1) as nat);
            assert(full.messageKeys.contains_key(other));
        }
    }
}

} // verus!
