//! `WhisperMessage` and `PreKeyWhisperMessage` on the wire.
//!
//! `WhisperMessage`: 1 ephemeral_key (bytes), 2 counter (varint),
//! 3 previous_counter (varint), 4 ciphertext (bytes).
//!
//! `PreKeyWhisperMessage`: 1 pre_key_id (varint, optional), 2 base_key (bytes),
//! 3 identity_key (bytes), 4 message (bytes, a serialized `WhisperMessage`),
//! 5 registration_id (varint), 6 signed_pre_key_id (varint, optional).
//!
//! Unknown fields are skipped; of a repeated field the last one counts.
use crate::wire::{
    delimited, field_at, fields_from, last_bytes, last_u32, law_bytes_round_trip,
    law_fields_concatenate, law_small_tag, law_tag_round_trip, law_varint_round_trip, lemma_field_at_bounds,
    low32, read_bytes, read_tag, read_u32, skip_field, tag, two64, varint, write_bytes, write_tag,
    write_varint, Field, Payload,
};
use vstd::prelude::*;

verus! {

#[derive(Debug, PartialEq)]
pub struct WhisperMessage {
    pub ephemeral_key: Vec<u8>,
    pub counter: u32,
    pub previous_counter: u32,
    pub ciphertext: Vec<u8>,
}

#[derive(Debug, PartialEq)]
pub struct PreKeyWhisperMessage {
    pub pre_key_id: Option<u32>,
    pub base_key: Vec<u8>,
    pub identity_key: Vec<u8>,
    /// A serialized `WhisperMessage`.
    pub message: Vec<u8>,
    pub registration_id: u32,
    pub signed_pre_key_id: Option<u32>,
}

/// The contents of a `WhisperMessage`.
#[verifier::ext_equal]
pub struct WhisperView {
    pub ephemeral_key: Seq<u8>,
    pub counter: u32,
    pub previous_counter: u32,
    pub ciphertext: Seq<u8>,
}

/// The contents of a `PreKeyWhisperMessage`.
#[verifier::ext_equal]
pub struct PreKeyWhisperView {
    pub pre_key_id: Option<u32>,
    pub base_key: Seq<u8>,
    pub identity_key: Seq<u8>,
    pub message: Seq<u8>,
    pub registration_id: u32,
    pub signed_pre_key_id: Option<u32>,
}

impl View for WhisperMessage {
    type V = WhisperView;

    open spec fn view(&self) -> WhisperView {
        WhisperView {
            ephemeral_key: self.ephemeral_key@,
            counter: self.counter,
            previous_counter: self.previous_counter,
            ciphertext: self.ciphertext@,
        }
    }
}

impl View for PreKeyWhisperMessage {
    type V = PreKeyWhisperView;

    open spec fn view(&self) -> PreKeyWhisperView {
        PreKeyWhisperView {
            pre_key_id: self.pre_key_id,
            base_key: self.base_key@,
            identity_key: self.identity_key@,
            message: self.message@,
            registration_id: self.registration_id,
            signed_pre_key_id: self.signed_pre_key_id,
        }
    }
}

/// The contents of a message are those of its fields, all of them.
pub proof fn law_message_contents(m: WhisperMessage, p: PreKeyWhisperMessage)
    ensures
        m@.ephemeral_key == m.ephemeral_key@,
        m@.counter == m.counter,
        m@.previous_counter == m.previous_counter,
        m@.ciphertext == m.ciphertext@,
        p@.pre_key_id == p.pre_key_id,
        p@.base_key == p.base_key@,
        p@.identity_key == p.identity_key@,
        p@.message == p.message@,
        p@.registration_id == p.registration_id,
        p@.signed_pre_key_id == p.signed_pre_key_id,
{
}

// ---------------------------------------------------------------- model

/// A field that carries a byte string.
pub open spec fn bytes_field(number: u32, data: Seq<u8>) -> Field {
    Field { number, payload: Payload::Bytes(data) }
}

/// A field that carries a number.
pub open spec fn number_field(number: u32, v: u32) -> Field {
    Field { number, payload: Payload::Varint(v as u64) }
}

/// The bytes of one varint or byte string field.
pub open spec fn field_bytes(f: Field) -> Seq<u8> {
    match f.payload {
        Payload::Varint(v) => tag(f.number, 0) + varint(v as nat),
        Payload::Bytes(data) => tag(f.number, 2) + delimited(data),
        _ => Seq::empty(),
    }
}

/// The bytes of a sequence of varint and byte string fields.
pub open spec fn fields_bytes(fields: Seq<Field>) -> Seq<u8>
    decreases fields.len(),
{
    if fields.len() == 0 {
        Seq::empty()
    } else {
        fields_bytes(fields.drop_last()) + field_bytes(fields.last())
    }
}

/// The fields of a `WhisperMessage`, in the order in which they are written.
pub open spec fn whisper_fields(m: WhisperView) -> Seq<Field> {
    seq![
        bytes_field(1, m.ephemeral_key),
        number_field(2, m.counter),
        number_field(3, m.previous_counter),
        bytes_field(4, m.ciphertext),
    ]
}

/// The message that a sequence of fields spells.
pub open spec fn whisper_of(fields: Seq<Field>) -> WhisperView {
    WhisperView {
        ephemeral_key: last_bytes(fields, 1),
        counter: last_u32(fields, 2).unwrap_or(0),
        previous_counter: last_u32(fields, 3).unwrap_or(0),
        ciphertext: last_bytes(fields, 4),
    }
}

/// An optional number field: absent for `None`.
pub open spec fn optional_field(number: u32, v: Option<u32>) -> Seq<Field> {
    match v {
        Some(id) => seq![number_field(number, id)],
        None => Seq::empty(),
    }
}

/// The fields of a `PreKeyWhisperMessage`, in the order in which they are
/// written.
pub open spec fn pkmsg_fields(m: PreKeyWhisperView) -> Seq<Field> {
    optional_field(1, m.pre_key_id) + seq![
        bytes_field(2, m.base_key),
        bytes_field(3, m.identity_key),
        bytes_field(4, m.message),
        number_field(5, m.registration_id),
    ] + optional_field(6, m.signed_pre_key_id)
}

/// The message that a sequence of fields spells.
pub open spec fn pkmsg_of(fields: Seq<Field>) -> PreKeyWhisperView {
    PreKeyWhisperView {
        pre_key_id: last_u32(fields, 1),
        base_key: last_bytes(fields, 2),
        identity_key: last_bytes(fields, 3),
        message: last_bytes(fields, 4),
        registration_id: last_u32(fields, 5).unwrap_or(0),
        signed_pre_key_id: last_u32(fields, 6),
    }
}

/// The bytes of a `WhisperMessage`.
pub open spec fn whisper_bytes(m: WhisperView) -> Seq<u8> {
    fields_bytes(whisper_fields(m))
}

/// The bytes of a `PreKeyWhisperMessage`.
pub open spec fn pkmsg_bytes(m: PreKeyWhisperView) -> Seq<u8> {
    fields_bytes(pkmsg_fields(m))
}

/// What decoding `bytes` as a `WhisperMessage` gives.
pub open spec fn whisper_decoded(bytes: Seq<u8>) -> Result<WhisperView, Seq<char>> {
    match fields_from(bytes, 0) {
        Ok(fields) => Ok(whisper_of(fields)),
        Err(e) => Err(e),
    }
}

/// What decoding `bytes` as a `PreKeyWhisperMessage` gives.
pub open spec fn pkmsg_decoded(bytes: Seq<u8>) -> Result<PreKeyWhisperView, Seq<char>> {
    match fields_from(bytes, 0) {
        Ok(fields) => Ok(pkmsg_of(fields)),
        Err(e) => Err(e),
    }
}

// ---------------------------------------------------------------- decoding

/// `fields` are the ones in front of `pos`.
spec fn parsed_up_to(bytes: Seq<u8>, pos: int, fields: Seq<Field>) -> bool {
    fields_from(bytes, 0) == match fields_from(bytes, pos) {
        Ok(rest) => Ok(fields + rest),
        Err(e) => Err(e),
    }
}

proof fn lemma_parse_step(bytes: Seq<u8>, pos: int, fields: Seq<Field>)
    requires
        0 <= pos < bytes.len(),
        parsed_up_to(bytes, pos, fields),
    ensures
        match field_at(bytes, pos) {
            Ok((f, next)) => parsed_up_to(bytes, next, fields.push(f)) && pos < next
                <= bytes.len(),
            Err(e) => fields_from(bytes, 0) == Err::<Seq<Field>, Seq<char>>(e),
        },
{
    lemma_field_at_bounds(bytes, pos);
    if let Ok((f, next)) = field_at(bytes, pos) {
        if let Ok(rest) = fields_from(bytes, next) {
            assert(fields + (seq![f] + rest) =~= fields.push(f) + rest);
        }
    }
}

proof fn lemma_parse_end(bytes: Seq<u8>, pos: int, fields: Seq<Field>)
    requires
        pos >= bytes.len(),
        parsed_up_to(bytes, pos, fields),
    ensures
        fields_from(bytes, 0) == Ok::<Seq<Field>, Seq<char>>(fields),
{
    assert(fields + Seq::<Field>::empty() =~= fields);
}

proof fn lemma_parse_start(bytes: Seq<u8>)
    ensures
        parsed_up_to(bytes, 0, Seq::empty()),
{
    if let Ok(rest) = fields_from(bytes, 0) {
        assert(Seq::<Field>::empty() + rest =~= rest);
    }
}

/// What one more field does to the last values.
proof fn lemma_last_push(fields: Seq<Field>, f: Field)
    ensures
        forall|n: u32| #[trigger]
            last_bytes(fields.push(f), n) == match f.payload {
                Payload::Bytes(data) if f.number == n => data,
                _ => last_bytes(fields, n),
            },
        forall|n: u32| #[trigger]
            last_u32(fields.push(f), n) == match f.payload {
                Payload::Varint(v) if f.number == n => Some(low32(v)),
                _ => last_u32(fields, n),
            },
{
    assert(fields.push(f).drop_last() =~= fields);
}

pub fn decode_whisper(bytes: &[u8]) -> (result: Result<WhisperMessage, String>)
    ensures
        match (result, whisper_decoded(bytes@)) {
            (Ok(m), Ok(w)) => m@ == w,
            (Err(e), Err(m)) => e@ == m,
            _ => false,
        },
{
    let mut msg = WhisperMessage {
        ephemeral_key: Vec::new(),
        counter: 0,
        previous_counter: 0,
        ciphertext: Vec::new(),
    };
    let mut pos: usize = 0;
    let ghost mut fields: Seq<Field> = Seq::empty();
    proof {
        lemma_parse_start(bytes@);
    }
    while pos < bytes.len()
        invariant
            pos <= bytes@.len(),
            parsed_up_to(bytes@, pos as int, fields),
            msg@ == whisper_of(fields),
        decreases bytes@.len() - pos,
    {
        let ghost here = pos as int;
        proof {
            lemma_parse_step(bytes@, here, fields);
        }
        let (field, wire) = read_tag(bytes, &mut pos)?;
        match (field, wire) {
            (1, 2) => {
                msg.ephemeral_key = read_bytes(bytes, &mut pos)?;
            },
            (2, 0) => {
                msg.counter = read_u32(bytes, &mut pos)?;
            },
            (3, 0) => {
                msg.previous_counter = read_u32(bytes, &mut pos)?;
            },
            (4, 2) => {
                msg.ciphertext = read_bytes(bytes, &mut pos)?;
            },
            (_, w) => {
                skip_field(bytes, &mut pos, w)?;
            },
        }
        proof {
            let f = field_at(bytes@, here)->Ok_0.0;
            lemma_last_push(fields, f);
            fields = fields.push(f);
        }
    }
    proof {
        lemma_parse_end(bytes@, pos as int, fields);
    }
    Ok(msg)
}

pub fn decode_pkmsg(bytes: &[u8]) -> (result: Result<PreKeyWhisperMessage, String>)
    ensures
        match (result, pkmsg_decoded(bytes@)) {
            (Ok(m), Ok(w)) => m@ == w,
            (Err(e), Err(m)) => e@ == m,
            _ => false,
        },
{
    let mut msg = PreKeyWhisperMessage {
        pre_key_id: None,
        base_key: Vec::new(),
        identity_key: Vec::new(),
        message: Vec::new(),
        registration_id: 0,
        signed_pre_key_id: None,
    };
    let mut pos: usize = 0;
    let ghost mut fields: Seq<Field> = Seq::empty();
    proof {
        lemma_parse_start(bytes@);
    }
    while pos < bytes.len()
        invariant
            pos <= bytes@.len(),
            parsed_up_to(bytes@, pos as int, fields),
            msg@ == pkmsg_of(fields),
        decreases bytes@.len() - pos,
    {
        let ghost here = pos as int;
        proof {
            lemma_parse_step(bytes@, here, fields);
        }
        let (field, wire) = read_tag(bytes, &mut pos)?;
        match (field, wire) {
            (1, 0) => {
                msg.pre_key_id = Some(read_u32(bytes, &mut pos)?);
            },
            (2, 2) => {
                msg.base_key = read_bytes(bytes, &mut pos)?;
            },
            (3, 2) => {
                msg.identity_key = read_bytes(bytes, &mut pos)?;
            },
            (4, 2) => {
                msg.message = read_bytes(bytes, &mut pos)?;
            },
            (5, 0) => {
                msg.registration_id = read_u32(bytes, &mut pos)?;
            },
            (6, 0) => {
                msg.signed_pre_key_id = Some(read_u32(bytes, &mut pos)?);
            },
            (_, w) => {
                skip_field(bytes, &mut pos, w)?;
            },
        }
        proof {
            let f = field_at(bytes@, here)->Ok_0.0;
            lemma_last_push(fields, f);
            fields = fields.push(f);
        }
    }
    proof {
        lemma_parse_end(bytes@, pos as int, fields);
    }
    Ok(msg)
}

// ---------------------------------------------------------------- encoding

proof fn lemma_fields_bytes_push(fields: Seq<Field>, f: Field)
    ensures
        fields_bytes(fields.push(f)) == fields_bytes(fields) + field_bytes(f),
{
    assert(fields.push(f).drop_last() =~= fields);
}

fn push_bytes_field(buf: &mut Vec<u8>, number: u32, data: &[u8], fields: Ghost<Seq<Field>>)
    requires
        old(buf)@ == fields_bytes(fields@),
    ensures
        final(buf)@ == fields_bytes(fields@.push(bytes_field(number, data@))),
{
    write_tag(buf, number, 2);
    write_bytes(buf, data);
    proof {
        let f = bytes_field(number, data@);
        lemma_fields_bytes_push(fields@, f);
        assert(buf@ =~= fields_bytes(fields@) + field_bytes(f));
    }
}

fn push_number_field(buf: &mut Vec<u8>, number: u32, v: u32, fields: Ghost<Seq<Field>>)
    requires
        old(buf)@ == fields_bytes(fields@),
    ensures
        final(buf)@ == fields_bytes(fields@.push(number_field(number, v))),
{
    write_tag(buf, number, 0);
    write_varint(buf, v as u64);
    proof {
        let f = number_field(number, v);
        lemma_fields_bytes_push(fields@, f);
        assert(buf@ =~= fields_bytes(fields@) + field_bytes(f));
    }
}

pub fn encode_whisper(msg: &WhisperMessage) -> (result: Result<Vec<u8>, String>)
    ensures
        result matches Ok(v) && v@ == whisper_bytes(msg@),
{
    let mut buf: Vec<u8> = Vec::new();
    let ghost fields = whisper_fields(msg@);
    push_bytes_field(&mut buf, 1, &msg.ephemeral_key, Ghost(fields.take(0)));
    assert(fields.take(0).push(fields[0]) =~= fields.take(1));
    push_number_field(&mut buf, 2, msg.counter, Ghost(fields.take(1)));
    assert(fields.take(1).push(fields[1]) =~= fields.take(2));
    push_number_field(&mut buf, 3, msg.previous_counter, Ghost(fields.take(2)));
    assert(fields.take(2).push(fields[2]) =~= fields.take(3));
    push_bytes_field(&mut buf, 4, &msg.ciphertext, Ghost(fields.take(3)));
    assert(fields.take(3).push(fields[3]) =~= fields);
    Ok(buf)
}

pub fn encode_pkmsg(msg: &PreKeyWhisperMessage) -> (result: Result<Vec<u8>, String>)
    ensures
        result matches Ok(v) && v@ == pkmsg_bytes(msg@),
{
    let mut buf: Vec<u8> = Vec::new();
    let ghost mut done: Seq<Field> = Seq::empty();
    if let Some(id) = msg.pre_key_id {
        push_number_field(&mut buf, 1, id, Ghost(done));
        proof {
            done = done.push(number_field(1, id));
        }
    }
    assert(done =~= optional_field(1, msg.pre_key_id));
    push_bytes_field(&mut buf, 2, &msg.base_key, Ghost(done));
    proof {
        done = done.push(bytes_field(2, msg.base_key@));
    }
    push_bytes_field(&mut buf, 3, &msg.identity_key, Ghost(done));
    proof {
        done = done.push(bytes_field(3, msg.identity_key@));
    }
    push_bytes_field(&mut buf, 4, &msg.message, Ghost(done));
    proof {
        done = done.push(bytes_field(4, msg.message@));
    }
    push_number_field(&mut buf, 5, msg.registration_id, Ghost(done));
    proof {
        done = done.push(number_field(5, msg.registration_id));
    }
    if let Some(id) = msg.signed_pre_key_id {
        push_number_field(&mut buf, 6, id, Ghost(done));
        proof {
            done = done.push(number_field(6, id));
        }
    }
    assert(done =~= pkmsg_fields(msg@));
    Ok(buf)
}

// ---------------------------------------------------------------- laws

/// A field that can be written: its number is not zero and it carries a
/// number or a byte string whose length a varint can hold.
pub open spec fn writable(f: Field) -> bool {
    f.number != 0 && match f.payload {
        Payload::Varint(_) => true,
        Payload::Bytes(data) => data.len() < two64(),
        _ => false,
    }
}

proof fn lemma_field_round_trip(prefix: Seq<u8>, f: Field)
    requires
        writable(f),
    ensures
        fields_from(prefix + field_bytes(f), prefix.len() as int) == Ok::<Seq<Field>, Seq<char>>(
            seq![f],
        ),
        field_bytes(f).len() > 0,
{
    let bytes = prefix + field_bytes(f);
    let wire: u32 = if f.payload is Varint {
        0
    } else {
        2
    };
    let t = tag(f.number, wire);
    let body = match f.payload {
        Payload::Varint(v) => varint(v as nat),
        Payload::Bytes(data) => delimited(data),
        _ => Seq::empty(),
    };
    assert(bytes =~= prefix + t + body);
    law_tag_round_trip(prefix, f.number, wire, body);
    assert(bytes =~= (prefix + t) + body + Seq::<u8>::empty());
    match f.payload {
        Payload::Varint(v) => law_varint_round_trip(prefix + t, v, Seq::empty()),
        Payload::Bytes(data) => law_bytes_round_trip(prefix + t, data, Seq::empty()),
        _ => {},
    }
    assert(field_at(bytes, prefix.len() as int) == Ok::<(Field, int), Seq<char>>(
        (f, bytes.len() as int),
    ));
    assert(fields_from(bytes, bytes.len() as int) == Ok::<Seq<Field>, Seq<char>>(Seq::empty()));
    assert(seq![f] + Seq::<Field>::empty() =~= seq![f]);
    lemma_field_at_bounds(bytes, prefix.len() as int);
}

/// Fields that were written read back, one by one and in order.
pub proof fn law_fields_round_trip(fields: Seq<Field>)
    requires
        forall|i: int| 0 <= i < fields.len() ==> writable(#[trigger] fields[i]),
    ensures
        fields_from(fields_bytes(fields), 0) == Ok::<Seq<Field>, Seq<char>>(fields),
    decreases fields.len(),
{
    if fields.len() == 0 {
        assert(fields =~= Seq::empty());
    } else {
        let front = fields_bytes(fields.drop_last());
        law_fields_round_trip(fields.drop_last());
        lemma_field_round_trip(front, fields.last());
        law_fields_concatenate(front, field_bytes(fields.last()), 0);
        assert(fields.drop_last() + seq![fields.last()] =~= fields);
    }
}

/// A `WhisperMessage` decodes to what was encoded.
pub proof fn law_whisper_round_trip(m: WhisperView)
    requires
        m.ephemeral_key.len() < two64(),
        m.ciphertext.len() < two64(),
    ensures
        whisper_decoded(whisper_bytes(m)) == Ok::<WhisperView, Seq<char>>(m),
{
    let fields = whisper_fields(m);
    law_fields_round_trip(fields);
    lemma_whisper_fields(m);
}

proof fn lemma_whisper_fields(m: WhisperView)
    ensures
        whisper_of(whisper_fields(m)) == m,
{
    let fields = whisper_fields(m);
    let f0 = Seq::<Field>::empty();
    let f1 = f0.push(fields[0]);
    let f2 = f1.push(fields[1]);
    let f3 = f2.push(fields[2]);
    lemma_last_push(f0, fields[0]);
    lemma_last_push(f1, fields[1]);
    lemma_last_push(f2, fields[2]);
    lemma_last_push(f3, fields[3]);
    assert(fields =~= f3.push(fields[3]));
}

/// A `PreKeyWhisperMessage` decodes to what was encoded, with or without its
/// optional ids.
pub proof fn law_pkmsg_round_trip(m: PreKeyWhisperView)
    requires
        m.base_key.len() < two64(),
        m.identity_key.len() < two64(),
        m.message.len() < two64(),
    ensures
        pkmsg_decoded(pkmsg_bytes(m)) == Ok::<PreKeyWhisperView, Seq<char>>(m),
{
    law_fields_round_trip(pkmsg_fields(m));
    lemma_pkmsg_fields(m);
}

proof fn lemma_pkmsg_fields(m: PreKeyWhisperView)
    ensures
        pkmsg_of(pkmsg_fields(m)) == m,
{
    let none = Seq::<Field>::empty();
    let f1 = optional_field(1, m.pre_key_id);
    if let Some(id) = m.pre_key_id {
        lemma_last_push(none, number_field(1, id));
        assert(f1 =~= none.push(number_field(1, id)));
    }
    let f2 = f1.push(bytes_field(2, m.base_key));
    let f3 = f2.push(bytes_field(3, m.identity_key));
    let f4 = f3.push(bytes_field(4, m.message));
    let f5 = f4.push(number_field(5, m.registration_id));
    lemma_last_push(f1, bytes_field(2, m.base_key));
    lemma_last_push(f2, bytes_field(3, m.identity_key));
    lemma_last_push(f3, bytes_field(4, m.message));
    lemma_last_push(f4, number_field(5, m.registration_id));
    match m.signed_pre_key_id {
        Some(id) => {
            lemma_last_push(f5, number_field(6, id));
            assert(pkmsg_fields(m) =~= f5.push(number_field(6, id)));
        },
        None => {
            assert(pkmsg_fields(m) =~= f5);
        },
    }
}

/// The bytes of a `WhisperMessage`: each field behind its tag, byte strings
/// behind their lengths, in the order of their numbers.
pub proof fn law_whisper_layout(m: WhisperView)
    ensures
        whisper_bytes(m) == seq![0x0au8] + varint(m.ephemeral_key.len()) + m.ephemeral_key
            + seq![0x10u8] + varint(m.counter as nat) + seq![0x18u8] + varint(
            m.previous_counter as nat,
        ) + seq![0x22u8] + varint(m.ciphertext.len()) + m.ciphertext,
{
    let fields = whisper_fields(m);
    let f1 = Seq::<Field>::empty().push(fields[0]);
    let f2 = f1.push(fields[1]);
    let f3 = f2.push(fields[2]);
    assert(fields =~= f3.push(fields[3]));
    lemma_bytes_behind(Seq::empty(), 1, m.ephemeral_key);
    lemma_number_behind(f1, 2, m.counter);
    lemma_number_behind(f2, 3, m.previous_counter);
    lemma_bytes_behind(f3, 4, m.ciphertext);
    assert(Seq::<u8>::empty() + seq![0x0au8] =~= seq![0x0au8]);
}

/// The bytes of a `PreKeyWhisperMessage`, in the same way; an id that is
/// absent leaves no byte.
pub proof fn law_pkmsg_layout(m: PreKeyWhisperView)
    ensures
        pkmsg_bytes(m) == (match m.pre_key_id {
            Some(id) => seq![0x08u8] + varint(id as nat),
            None => Seq::empty(),
        }) + seq![0x12u8] + varint(m.base_key.len()) + m.base_key + seq![0x1au8] + varint(
            m.identity_key.len(),
        ) + m.identity_key + seq![0x22u8] + varint(m.message.len()) + m.message + seq![0x28u8]
            + varint(m.registration_id as nat) + (match m.signed_pre_key_id {
            Some(id) => seq![0x30u8] + varint(id as nat),
            None => Seq::empty(),
        }),
{
    let none = Seq::<Field>::empty();
    let f1 = optional_field(1, m.pre_key_id);
    let head = match m.pre_key_id {
        Some(id) => seq![0x08u8] + varint(id as nat),
        None => Seq::empty(),
    };
    assert(fields_bytes(f1) == head) by {
        if let Some(id) = m.pre_key_id {
            lemma_number_behind(none, 1, id);
            assert(f1 =~= none.push(number_field(1, id)));
            assert(Seq::<u8>::empty() + seq![0x08u8] =~= seq![0x08u8]);
        }
    }
    let f2 = f1.push(bytes_field(2, m.base_key));
    let f3 = f2.push(bytes_field(3, m.identity_key));
    let f4 = f3.push(bytes_field(4, m.message));
    let f5 = f4.push(number_field(5, m.registration_id));
    lemma_bytes_behind(f1, 2, m.base_key);
    lemma_bytes_behind(f2, 3, m.identity_key);
    lemma_bytes_behind(f3, 4, m.message);
    lemma_number_behind(f4, 5, m.registration_id);
    match m.signed_pre_key_id {
        Some(id) => {
            lemma_number_behind(f5, 6, id);
            assert(pkmsg_fields(m) =~= f5.push(number_field(6, id)));
            assert(fields_bytes(f5) + seq![0x30u8] + varint(id as nat) =~= fields_bytes(f5) + (
            seq![0x30u8] + varint(id as nat)));
        },
        None => {
            assert(pkmsg_fields(m) =~= f5);
            assert(fields_bytes(f5) + Seq::<u8>::empty() =~= fields_bytes(f5));
        },
    }
}

proof fn lemma_bytes_behind(fields: Seq<Field>, number: u32, data: Seq<u8>)
    requires
        number < 16,
    ensures
        fields_bytes(fields.push(bytes_field(number, data))) == fields_bytes(fields) + seq![
            (8 * number + 2) as u8,
        ] + varint(data.len()) + data,
{
    let front = fields_bytes(fields);
    let t = seq![(8 * number + 2) as u8];
    lemma_fields_bytes_push(fields, bytes_field(number, data));
    law_small_tag(number, 2);
    assert(front + (t + (varint(data.len()) + data)) =~= front + t + varint(data.len()) + data);
}

proof fn lemma_number_behind(fields: Seq<Field>, number: u32, v: u32)
    requires
        number < 16,
    ensures
        fields_bytes(fields.push(number_field(number, v))) == fields_bytes(fields) + seq![
            (8 * number) as u8,
        ] + varint(v as nat),
{
    let front = fields_bytes(fields);
    let t = seq![(8 * number) as u8];
    lemma_fields_bytes_push(fields, number_field(number, v));
    law_small_tag(number, 0);
    assert(front + (t + varint(v as nat)) =~= front + t + varint(v as nat));
}

/// Of a repeated field the last one counts, and of a number its low 32 bits:
/// one more field behind a `WhisperMessage` sets its own part and no other.
pub proof fn law_whisper_last_field_counts(front: Seq<u8>, f: Field)
    requires
        whisper_decoded(front) is Ok,
        writable(f),
    ensures
        ({
            let m = whisper_decoded(front)->Ok_0;
            whisper_decoded(front + field_bytes(f)) == Ok::<WhisperView, Seq<char>>(
                match f.payload {
                    Payload::Bytes(data) if f.number == 1 => WhisperView {
                        ephemeral_key: data,
                        ..m
                    },
                    Payload::Varint(v) if f.number == 2 => WhisperView {
                        counter: (v as int % 0x1_0000_0000) as u32,
                        ..m
                    },
                    Payload::Varint(v) if f.number == 3 => WhisperView {
                        previous_counter: (v as int % 0x1_0000_0000) as u32,
                        ..m
                    },
                    Payload::Bytes(data) if f.number == 4 => WhisperView { ciphertext: data, ..m },
                    _ => m,
                },
            )
        }),
{
    lemma_one_more_field(front, f);
}

/// The same for a `PreKeyWhisperMessage`.
pub proof fn law_pkmsg_last_field_counts(front: Seq<u8>, f: Field)
    requires
        pkmsg_decoded(front) is Ok,
        writable(f),
    ensures
        ({
            let m = pkmsg_decoded(front)->Ok_0;
            pkmsg_decoded(front + field_bytes(f)) == Ok::<PreKeyWhisperView, Seq<char>>(
                match f.payload {
                    Payload::Varint(v) if f.number == 1 => PreKeyWhisperView {
                        pre_key_id: Some((v as int % 0x1_0000_0000) as u32),
                        ..m
                    },
                    Payload::Bytes(data) if f.number == 2 => PreKeyWhisperView {
                        base_key: data,
                        ..m
                    },
                    Payload::Bytes(data) if f.number == 3 => PreKeyWhisperView {
                        identity_key: data,
                        ..m
                    },
                    Payload::Bytes(data) if f.number == 4 => PreKeyWhisperView {
                        message: data,
                        ..m
                    },
                    Payload::Varint(v) if f.number == 5 => PreKeyWhisperView {
                        registration_id: (v as int % 0x1_0000_0000) as u32,
                        ..m
                    },
                    Payload::Varint(v) if f.number == 6 => PreKeyWhisperView {
                        signed_pre_key_id: Some((v as int % 0x1_0000_0000) as u32),
                        ..m
                    },
                    _ => m,
                },
            )
        }),
{
    lemma_one_more_field(front, f);
}

proof fn lemma_one_more_field(front: Seq<u8>, f: Field)
    requires
        fields_from(front, 0) is Ok,
        writable(f),
    ensures
        fields_from(front + field_bytes(f), 0) == Ok::<Seq<Field>, Seq<char>>(
            fields_from(front, 0)->Ok_0.push(f),
        ),
        forall|n: u32| #[trigger]
            last_bytes(fields_from(front, 0)->Ok_0.push(f), n) == match f.payload {
                Payload::Bytes(data) if f.number == n => data,
                _ => last_bytes(fields_from(front, 0)->Ok_0, n),
            },
        forall|n: u32| #[trigger]
            last_u32(fields_from(front, 0)->Ok_0.push(f), n) == match f.payload {
                Payload::Varint(v) if f.number == n => Some(low32(v)),
                _ => last_u32(fields_from(front, 0)->Ok_0, n),
            },
{
    let fields = fields_from(front, 0)->Ok_0;
    lemma_field_round_trip(front, f);
    law_fields_concatenate(front, field_bytes(f), 0);
    assert(fields + seq![f] =~= fields.push(f));
    lemma_last_push(fields, f);
}

/// `f` is a field of a `WhisperMessage`: its number and what it carries are
/// known.
pub open spec fn known_to_whisper(f: Field) -> bool {
    match f.payload {
        Payload::Bytes(_) => f.number == 1 || f.number == 4,
        Payload::Varint(_) => f.number == 2 || f.number == 3,
        _ => false,
    }
}

/// `f` is a field of a `PreKeyWhisperMessage`.
pub open spec fn known_to_pkmsg(f: Field) -> bool {
    match f.payload {
        Payload::Bytes(_) => f.number == 2 || f.number == 3 || f.number == 4,
        Payload::Varint(_) => f.number == 1 || f.number == 5 || f.number == 6,
        _ => false,
    }
}

proof fn lemma_whisper_known(fields: Seq<Field>)
    ensures
        whisper_of(fields) == whisper_of(fields.filter(|f: Field| known_to_whisper(f))),
    decreases fields.len(),
{
    reveal(Seq::filter);
    let known = |f: Field| known_to_whisper(f);
    if fields.len() > 0 {
        let front = fields.drop_last();
        lemma_whisper_known(front);
        assert(fields =~= front.push(fields.last()));
        lemma_last_push(front, fields.last());
        lemma_last_push(front.filter(known), fields.last());
    }
}

proof fn lemma_pkmsg_known(fields: Seq<Field>)
    ensures
        pkmsg_of(fields) == pkmsg_of(fields.filter(|f: Field| known_to_pkmsg(f))),
    decreases fields.len(),
{
    reveal(Seq::filter);
    let known = |f: Field| known_to_pkmsg(f);
    if fields.len() > 0 {
        let front = fields.drop_last();
        lemma_pkmsg_known(front);
        assert(fields =~= front.push(fields.last()));
        lemma_last_push(front, fields.last());
        lemma_last_push(front.filter(known), fields.last());
    }
}

/// Unknown fields are skipped, wherever they stand: two encodings that agree
/// on the fields of a `WhisperMessage` decode to the same message.
pub proof fn law_whisper_skips_unknown(a: Seq<u8>, b: Seq<u8>)
    requires
        fields_from(a, 0) is Ok,
        fields_from(b, 0) is Ok,
        fields_from(a, 0)->Ok_0.filter(|f: Field| known_to_whisper(f)) == fields_from(
            b,
            0,
        )->Ok_0.filter(|f: Field| known_to_whisper(f)),
    ensures
        whisper_decoded(a) == whisper_decoded(b),
{
    lemma_whisper_known(fields_from(a, 0)->Ok_0);
    lemma_whisper_known(fields_from(b, 0)->Ok_0);
}

/// The same for a `PreKeyWhisperMessage`.
pub proof fn law_pkmsg_skips_unknown(a: Seq<u8>, b: Seq<u8>)
    requires
        fields_from(a, 0) is Ok,
        fields_from(b, 0) is Ok,
        fields_from(a, 0)->Ok_0.filter(|f: Field| known_to_pkmsg(f)) == fields_from(
            b,
            0,
        )->Ok_0.filter(|f: Field| known_to_pkmsg(f)),
    ensures
        pkmsg_decoded(a) == pkmsg_decoded(b),
{
    lemma_pkmsg_known(fields_from(a, 0)->Ok_0);
    lemma_pkmsg_known(fields_from(b, 0)->Ok_0);
}

/// What is absent is empty, zero or none: bytes without a field of a
/// `WhisperMessage` decode to one without contents.
pub proof fn law_whisper_defaults(bytes: Seq<u8>, fields: Seq<Field>)
    requires
        fields_from(bytes, 0) == Ok::<Seq<Field>, Seq<char>>(fields),
        forall|i: int| 0 <= i < fields.len() ==> !known_to_whisper(#[trigger] fields[i]),
    ensures
        whisper_decoded(bytes) == Ok::<WhisperView, Seq<char>>(
            WhisperView {
                ephemeral_key: Seq::empty(),
                counter: 0,
                previous_counter: 0,
                ciphertext: Seq::empty(),
            },
        ),
{
    let known = |f: Field| known_to_whisper(f);
    lemma_whisper_known(fields);
    lemma_none_known(fields, known);
}

/// The same for a `PreKeyWhisperMessage`.
pub proof fn law_pkmsg_defaults(bytes: Seq<u8>, fields: Seq<Field>)
    requires
        fields_from(bytes, 0) == Ok::<Seq<Field>, Seq<char>>(fields),
        forall|i: int| 0 <= i < fields.len() ==> !known_to_pkmsg(#[trigger] fields[i]),
    ensures
        pkmsg_decoded(bytes) == Ok::<PreKeyWhisperView, Seq<char>>(
            PreKeyWhisperView {
                pre_key_id: None,
                base_key: Seq::empty(),
                identity_key: Seq::empty(),
                message: Seq::empty(),
                registration_id: 0,
                signed_pre_key_id: None,
            },
        ),
{
    let known = |f: Field| known_to_pkmsg(f);
    lemma_pkmsg_known(fields);
    lemma_none_known(fields, known);
}

proof fn lemma_none_known(fields: Seq<Field>, known: spec_fn(Field) -> bool)
    requires
        forall|i: int| 0 <= i < fields.len() ==> !known(#[trigger] fields[i]),
    ensures
        fields.filter(known) == Seq::<Field>::empty(),
    decreases fields.len(),
{
    reveal(Seq::filter);
    if fields.len() > 0 {
        let front = fields.drop_last();
        assert forall|i: int| 0 <= i < front.len() implies !known(#[trigger] front[i]) by {
            assert(front[i] == fields[i]);
        }
        assert(!known(fields[fields.len() - 1]));
        lemma_none_known(front, known);
    }
}

} // verus!
