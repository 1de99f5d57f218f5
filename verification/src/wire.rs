//! Protobuf wire primitives: varints, length-delimited byte strings, tags.
//!
//! A tag is `(field_number << 3) | wire_type`. Wire type 0 carries a varint,
//! 2 a length-delimited byte string, 1 and 5 eight and four fixed bytes.
use crate::text::{decimal, with_number};
use vstd::arithmetic::power::pow;
use vstd::prelude::*;
use vstd::slice::{slice_subrange, slice_to_vec};
use vstd::string::*;

verus! {

// ---------------------------------------------------------------- model

/// 2^32.
pub open spec fn two32() -> nat {
    0x1_0000_0000
}

/// 2^64.
pub open spec fn two64() -> nat {
    0x1_0000_0000_0000_0000
}

/// The number whose base-128 digits, least significant first, are the low
/// seven bits of the bytes of `groups`.
pub open spec fn group_value(groups: Seq<u8>) -> nat
    decreases groups.len(),
{
    if groups.len() == 0 {
        0
    } else {
        (groups[0] % 128) as nat + 128 * group_value(groups.drop_first())
    }
}

/// How many of the bytes from `pos + seen` on belong to the varint at `pos`,
/// of which `seen` bytes are known to carry the continuation bit, counted
/// from `pos`. A varint ends at its first byte below 128 and has at most ten
/// bytes.
pub open spec fn varint_extent(bytes: Seq<u8>, pos: int, seen: nat) -> Result<nat, Seq<char>>
    decreases 10 - seen,
{
    if pos + seen >= bytes.len() {
        Err("varint truncated at byte "@ + decimal((pos + seen) as nat))
    } else if bytes[pos + seen] < 128 {
        Ok(seen + 1)
    } else if seen >= 9 {
        Err("varint too long"@)
    } else {
        varint_extent(bytes, pos, seen + 1)
    }
}

/// Where reading the varint at `pos` stops, of which `seen` bytes are read:
/// behind its last byte, behind the tenth byte of one that is too long, or
/// where the bytes run out.
pub open spec fn varint_stop(bytes: Seq<u8>, pos: int, seen: nat) -> int
    decreases 10 - seen,
{
    if pos + seen >= bytes.len() {
        pos + seen
    } else if bytes[pos + seen] < 128 || seen >= 9 {
        pos + seen + 1
    } else {
        varint_stop(bytes, pos, seen + 1)
    }
}

/// The varint at `pos`: its value modulo 2^64 and the position behind it.
pub open spec fn varint_at(bytes: Seq<u8>, pos: int) -> Result<(u64, int), Seq<char>> {
    match varint_extent(bytes, pos, 0) {
        Err(e) => Err(e),
        Ok(n) => Ok(
            ((group_value(bytes.subrange(pos, pos + n)) % two64()) as u64, pos + n),
        ),
    }
}

/// The shortest varint of `v`.
pub open spec fn varint(v: nat) -> Seq<u8>
    decreases v,
{
    if v < 128 {
        seq![v as u8]
    } else {
        seq![(v % 128 + 128) as u8] + varint(v / 128)
    }
}

/// The length-delimited byte string at `pos` and the position behind it.
pub open spec fn bytes_at(bytes: Seq<u8>, pos: int) -> Result<(Seq<u8>, int), Seq<char>> {
    match varint_at(bytes, pos) {
        Err(e) => Err(e),
        Ok((len, start)) => if len > bytes.len() - start {
            Err("bytes field truncated at byte "@ + decimal(start as nat))
        } else {
            Ok((bytes.subrange(start, start + len), start + len))
        },
    }
}

/// `data` behind its length.
pub open spec fn delimited(data: Seq<u8>) -> Seq<u8> {
    varint(data.len()) + data
}

/// What a field carries.
pub enum Payload {
    Varint(u64),
    Fixed64,
    Bytes(Seq<u8>),
    Fixed32,
}

/// One field of a message.
pub struct Field {
    pub number: u32,
    pub payload: Payload,
}

/// The field number and wire type at `pos` and the position behind them. Of
/// the field number the low 32 bits count, and they must not be zero.
pub open spec fn tag_at(bytes: Seq<u8>, pos: int) -> Result<((u32, u32), int), Seq<char>> {
    match varint_at(bytes, pos) {
        Err(e) => Err(e),
        Ok((tag, next)) => {
            let number = ((tag as nat / 8) % two32()) as u32;
            if number == 0 {
                Err("invalid field number 0"@)
            } else {
                Ok(((number, (tag % 8) as u32), next))
            }
        },
    }
}

/// The tag of a field.
pub open spec fn tag(number: u32, wire: u32) -> Seq<u8> {
    varint((((number as u64) << 3) | (wire as u64)) as nat)
}

/// The payload of wire type `wire` at `pos` and the position behind it.
pub open spec fn payload_at(bytes: Seq<u8>, pos: int, wire: u32) -> Result<
    (Payload, int),
    Seq<char>,
> {
    if wire == 0 {
        match varint_at(bytes, pos) {
            Err(e) => Err(e),
            Ok((v, next)) => Ok((Payload::Varint(v), next)),
        }
    } else if wire == 1 {
        if bytes.len() - pos < 8 {
            Err("fixed64 field truncated"@)
        } else {
            Ok((Payload::Fixed64, pos + 8))
        }
    } else if wire == 2 {
        match bytes_at(bytes, pos) {
            Err(e) => Err(e),
            Ok((data, next)) => Ok((Payload::Bytes(data), next)),
        }
    } else if wire == 5 {
        if bytes.len() - pos < 4 {
            Err("fixed32 field truncated"@)
        } else {
            Ok((Payload::Fixed32, pos + 4))
        }
    } else {
        Err("unsupported wire type "@ + decimal(wire as nat))
    }
}

/// The field at `pos` and the position behind it.
pub open spec fn field_at(bytes: Seq<u8>, pos: int) -> Result<(Field, int), Seq<char>> {
    match tag_at(bytes, pos) {
        Err(e) => Err(e),
        Ok(((number, wire), start)) => match payload_at(bytes, start, wire) {
            Err(e) => Err(e),
            Ok((payload, next)) => Ok((Field { number, payload }, next)),
        },
    }
}

/// All fields from `pos` to the end of `bytes`, in order.
pub open spec fn fields_from(bytes: Seq<u8>, pos: int) -> Result<Seq<Field>, Seq<char>>
    decreases bytes.len() - pos,
{
    if pos >= bytes.len() {
        Ok(Seq::empty())
    } else {
        proof {
            lemma_field_at_bounds(bytes, pos);
        }
        match field_at(bytes, pos) {
            Err(e) => Err(e),
            Ok((field, next)) => match fields_from(bytes, next) {
                Err(e) => Err(e),
                Ok(rest) => Ok(seq![field] + rest),
            },
        }
    }
}

/// The byte string of the last field `number` that carries one; empty when
/// there is none.
pub open spec fn last_bytes(fields: Seq<Field>, number: u32) -> Seq<u8>
    decreases fields.len(),
{
    if fields.len() == 0 {
        Seq::empty()
    } else {
        let f = fields.last();
        match f.payload {
            Payload::Bytes(data) if f.number == number => data,
            _ => last_bytes(fields.drop_last(), number),
        }
    }
}

/// The low 32 bits of the last varint field `number`, if there is one.
pub open spec fn last_u32(fields: Seq<Field>, number: u32) -> Option<u32>
    decreases fields.len(),
{
    if fields.len() == 0 {
        None
    } else {
        let f = fields.last();
        match f.payload {
            Payload::Varint(v) if f.number == number => Some(low32(v)),
            _ => last_u32(fields.drop_last(), number),
        }
    }
}

/// The low 32 bits of `v`.
pub open spec fn low32(v: u64) -> u32 {
    (v as nat % two32()) as u32
}

// ---------------------------------------------------------------- bounds

pub proof fn lemma_varint_extent_bounds(bytes: Seq<u8>, pos: int, seen: nat)
    requires
        seen <= 9,
    ensures
        varint_extent(bytes, pos, seen) matches Ok(n) ==> seen < n <= 10 && pos + n <= bytes.len(),
    decreases 10 - seen,
{
    if pos + seen < bytes.len() && bytes[pos + seen] >= 128 && seen < 9 {
        lemma_varint_extent_bounds(bytes, pos, seen + 1);
    }
}

/// Reading a varint goes forward and stays within the bytes; one that is
/// complete is read to its end.
pub proof fn lemma_varint_stop_bounds(bytes: Seq<u8>, pos: int, seen: nat)
    requires
        seen <= 9,
    ensures
        varint_stop(bytes, pos, seen) >= pos + seen,
        pos + seen <= bytes.len() ==> varint_stop(bytes, pos, seen) <= bytes.len(),
        varint_extent(bytes, pos, seen) matches Ok(n) ==> varint_stop(bytes, pos, seen) == pos + n,
    decreases 10 - seen,
{
    if pos + seen < bytes.len() && bytes[pos + seen] >= 128 && seen < 9 {
        lemma_varint_stop_bounds(bytes, pos, seen + 1);
    }
}

pub proof fn lemma_field_at_bounds(bytes: Seq<u8>, pos: int)
    ensures
        field_at(bytes, pos) matches Ok((_, next)) ==> pos < next <= bytes.len(),
{
    lemma_varint_extent_bounds(bytes, pos, 0);
    if let Ok((_, start)) = tag_at(bytes, pos) {
        lemma_varint_extent_bounds(bytes, start, 0);
    }
}

// ---------------------------------------------------------------- reading

proof fn lemma_group_value_push(groups: Seq<u8>, b: u8)
    ensures
        group_value(groups.push(b)) == group_value(groups) + (b % 128) * pow(128, groups.len()),
        group_value(groups) < pow(128, groups.len()),
    decreases groups.len(),
{
    reveal(pow);
    if groups.len() == 0 {
        assert(groups.push(b).drop_first() =~= Seq::<u8>::empty());
        assert(group_value(groups.push(b)) == (b % 128) as nat + 128 * group_value(
            Seq::<u8>::empty(),
        ));
    } else {
        let rest = groups.drop_first();
        lemma_group_value_push(rest, b);
        assert(groups.push(b).drop_first() =~= rest.push(b));
        let p = pow(128, rest.len());
        assert(pow(128, groups.len()) == 128 * p);
        assert(128 * ((b % 128) * p) == (b % 128) * (128 * p)) by (nonlinear_arith);
    }
}

/// Bytes seven bits at a time: the next group lands above the ones read.
proof fn lemma_next_group(acc: u64, b: u8, shift: u32, groups: Seq<u8>)
    requires
        groups.len() <= 9,
        shift == 7 * groups.len(),
        acc == group_value(groups),
    ensures
        (acc | (((b & 0x7f) as u64) << shift)) as nat == group_value(groups.push(b)) % two64(),
        groups.len() < 9 ==> group_value(groups.push(b)) < two64(),
{
    lemma_group_value_push(groups, b);
    lemma_group_value_push(groups.push(b), 0);
    reveal_with_fuel(pow, 11);
    let x: u64 = (b & 0x7f) as u64;
    assert(x == b % 128) by (bit_vector)
        requires
            x == (b & 0x7f) as u64,
    ;
    if shift == 0 {
        assert(acc | (x << 0u32) == acc + x) by (bit_vector)
            requires
                acc < 1,
                x < 128,
        ;
    } else if shift == 7 {
        assert(acc | (x << 7u32) == acc + x * 0x80) by (bit_vector)
            requires
                acc < 0x80,
                x < 128,
        ;
    } else if shift == 14 {
        assert(acc | (x << 14u32) == acc + x * 0x4000) by (bit_vector)
            requires
                acc < 0x4000,
                x < 128,
        ;
    } else if shift == 21 {
        assert(acc | (x << 21u32) == acc + x * 0x20_0000) by (bit_vector)
            requires
                acc < 0x20_0000,
                x < 128,
        ;
    } else if shift == 28 {
        assert(acc | (x << 28u32) == acc + x * 0x1000_0000) by (bit_vector)
            requires
                acc < 0x1000_0000,
                x < 128,
        ;
    } else if shift == 35 {
        assert(acc | (x << 35u32) == acc + x * 0x8_0000_0000) by (bit_vector)
            requires
                acc < 0x8_0000_0000,
                x < 128,
        ;
    } else if shift == 42 {
        assert(acc | (x << 42u32) == acc + x * 0x400_0000_0000) by (bit_vector)
            requires
                acc < 0x400_0000_0000,
                x < 128,
        ;
    } else if shift == 49 {
        assert(acc | (x << 49u32) == acc + x * 0x2_0000_0000_0000) by (bit_vector)
            requires
                acc < 0x2_0000_0000_0000,
                x < 128,
        ;
    } else if shift == 56 {
        assert(acc | (x << 56u32) == acc + x * 0x100_0000_0000_0000) by (bit_vector)
            requires
                acc < 0x100_0000_0000_0000,
                x < 128,
        ;
    } else {
        assert(acc | (x << 63u32) == acc + (x % 2) * 0x8000_0000_0000_0000) by (bit_vector)
            requires
                acc < 0x8000_0000_0000_0000,
                x < 128,
        ;
        let v = group_value(groups.push(b));
        assert(v == acc + x * 0x8000_0000_0000_0000);
        assert(v % two64() == acc + (x % 2) * 0x8000_0000_0000_0000);
    }
}

pub fn read_varint(bytes: &[u8], pos: &mut usize) -> (result: Result<u64, String>)
    ensures
        match (result, varint_at(bytes@, *old(pos) as int)) {
            (Ok(v), Ok((w, next))) => v == w && *final(pos) == next,
            (Err(e), Err(m)) => e@ == m,
            _ => false,
        },
        *final(pos) == varint_stop(bytes@, *old(pos) as int, 0),
        result is Ok ==> *final(pos) <= bytes@.len(),
{
    let ghost start = *pos as int;
    let mut result: u64 = 0;
    let mut shift: u32 = 0;
    let ghost mut seen: nat = 0;
    assert(start <= bytes@.len() ==> bytes@.subrange(start, start) =~= Seq::<u8>::empty());
    loop
        invariant
            seen <= 9,
            shift == 7 * seen,
            *pos == start + seen,
            0 <= start,
            seen > 0 ==> *pos <= bytes@.len(),
            start <= bytes@.len() ==> result == group_value(bytes@.subrange(start, start + seen)),
            varint_extent(bytes@, start, 0) == varint_extent(bytes@, start, seen),
            varint_stop(bytes@, start, 0) == varint_stop(bytes@, start, seen),
            start == *old(pos),
        decreases 10 - seen,
    {
        if *pos >= bytes.len() {
            return Err(with_number("varint truncated at byte ", *pos as u64));
        }
        let b: u8 = bytes[*pos];
        *pos += 1;
        proof {
            lemma_next_group(result, b, shift, bytes@.subrange(start, start + seen));
            assert(bytes@.subrange(start, start + seen).push(b) =~= bytes@.subrange(
                start,
                start + seen + 1,
            ));
            assert(b & 0x80 == 0 <==> b < 128) by (bit_vector);
        }
        result |= ((b & 0x7f) as u64) << shift;
        if b & 0x80 == 0 {
            return Ok(result);
        }
        shift += 7;
        if shift >= 64 {
            return Err("varint too long".to_owned());
        }
        proof {
            seen = seen + 1;
            vstd::arithmetic::div_mod::lemma_small_mod(result as nat, two64());
        }
    }
}

pub fn read_bytes(bytes: &[u8], pos: &mut usize) -> (result: Result<Vec<u8>, String>)
    ensures
        match (result, bytes_at(bytes@, *old(pos) as int)) {
            (Ok(v), Ok((w, next))) => v@ == w && *final(pos) == next,
            (Err(e), Err(m)) => e@ == m,
            _ => false,
        },
        result is Err ==> *final(pos) == varint_stop(bytes@, *old(pos) as int, 0),
        result is Ok ==> *final(pos) <= bytes@.len(),
{
    proof {
        lemma_varint_stop_bounds(bytes@, *pos as int, 0);
    }
    let len: u64 = read_varint(bytes, pos)?;
    if len > (bytes.len() - *pos) as u64 {
        return Err(with_number("bytes field truncated at byte ", *pos as u64));
    }
    let end: usize = *pos + len as usize;
    let out = slice_to_vec(slice_subrange(bytes, *pos, end));
    *pos = end;
    Ok(out)
}

/// Reads a tag: the field number and the wire type.
pub fn read_tag(bytes: &[u8], pos: &mut usize) -> (result: Result<(u32, u32), String>)
    ensures
        match (result, tag_at(bytes@, *old(pos) as int)) {
            (Ok(v), Ok((w, next))) => v == w && *final(pos) == next,
            (Err(e), Err(m)) => e@ == m,
            _ => false,
        },
        result is Err ==> *final(pos) == varint_stop(bytes@, *old(pos) as int, 0),
        result is Ok ==> *final(pos) <= bytes@.len(),
{
    proof {
        lemma_varint_stop_bounds(bytes@, *pos as int, 0);
    }
    let tag: u64 = read_varint(bytes, pos)?;
    let field: u32 = (tag >> 3) as u32;
    let wire: u32 = (tag & 0x07) as u32;
    assert((tag >> 3) as u32 == (tag / 8) % 0x1_0000_0000) by (bit_vector);
    assert((tag & 0x07) as u32 == tag % 8) by (bit_vector);
    if field == 0 {
        return Err("invalid field number 0".to_owned());
    }
    Ok((field, wire))
}

/// Skips the payload of a field of wire type `wire`.
pub fn skip_field(bytes: &[u8], pos: &mut usize, wire: u32) -> (result: Result<(), String>)
    ensures
        match (result, payload_at(bytes@, *old(pos) as int, wire)) {
            (Ok(_), Ok((_, next))) => *final(pos) == next,
            (Err(e), Err(m)) => e@ == m,
            _ => false,
        },
        result is Err ==> *final(pos) == (if wire == 0 || wire == 2 {
            varint_stop(bytes@, *old(pos) as int, 0)
        } else {
            *old(pos) as int
        }),
        *old(pos) <= bytes@.len() ==> *old(pos) <= *final(pos) <= bytes@.len(),
        result is Ok ==> *final(pos) <= bytes@.len(),
{
    proof {
        lemma_varint_stop_bounds(bytes@, *pos as int, 0);
    }
    match wire {
        0 => {
            read_varint(bytes, pos)?;
            Ok(())
        },
        1 => {
            if bytes.len().saturating_sub(*pos) < 8 {
                return Err("fixed64 field truncated".to_owned());
            }
            *pos += 8;
            Ok(())
        },
        2 => {
            read_bytes(bytes, pos)?;
            Ok(())
        },
        5 => {
            if bytes.len().saturating_sub(*pos) < 4 {
                return Err("fixed32 field truncated".to_owned());
            }
            *pos += 4;
            Ok(())
        },
        _ => Err(with_number("unsupported wire type ", wire as u64)),
    }
}

/// Reads a varint and keeps its low 32 bits.
pub fn read_u32(bytes: &[u8], pos: &mut usize) -> (result: Result<u32, String>)
    ensures
        match (result, varint_at(bytes@, *old(pos) as int)) {
            (Ok(v), Ok((w, next))) => v == low32(w) && *final(pos) == next,
            (Err(e), Err(m)) => e@ == m,
            _ => false,
        },
        result is Err ==> *final(pos) == varint_stop(bytes@, *old(pos) as int, 0),
        result is Ok ==> *final(pos) <= bytes@.len(),
{
    proof {
        lemma_varint_stop_bounds(bytes@, *pos as int, 0);
    }
    let v: u64 = read_varint(bytes, pos)?;
    assert(v as u32 == v % 0x1_0000_0000) by (bit_vector);
    Ok(v as u32)
}

// ---------------------------------------------------------------- writing

pub fn write_varint(buf: &mut Vec<u8>, value: u64)
    ensures
        final(buf)@ == old(buf)@ + varint(value as nat),
{
    let mut v: u64 = value;
    loop
        invariant
            buf@ + varint(v as nat) == old(buf)@ + varint(value as nat),
        decreases v,
    {
        let byte: u8 = (v & 0x7f) as u8;
        let ghost before = v;
        assert((v & 0x7f) as u8 == v % 128) by (bit_vector);
        assert(v >> 7 == v / 128) by (bit_vector);
        v >>= 7;
        if v == 0 {
            let ghost written = buf@;
            buf.push(byte);
            assert(buf@ =~= written + varint(before as nat));
            return;
        }
        let ghost written = buf@;
        assert(byte | 0x80 == byte + 128) by (bit_vector)
            requires
                byte < 128,
        ;
        buf.push(byte | 0x80);
        assert(varint(before as nat) == seq![(before % 128 + 128) as u8] + varint(v as nat));
        assert(buf@ + varint(v as nat) =~= written + varint(before as nat));
    }
}

pub fn write_bytes(buf: &mut Vec<u8>, data: &[u8])
    ensures
        final(buf)@ == old(buf)@ + delimited(data@),
{
    let ghost before = buf@;
    write_varint(buf, data.len() as u64);
    buf.extend_from_slice(data);
    assert(buf@ =~= before + delimited(data@));
}

pub fn write_tag(buf: &mut Vec<u8>, field: u32, wire: u32)
    ensures
        final(buf)@ == old(buf)@ + tag(field, wire),
{
    write_varint(buf, ((field as u64) << 3) | (wire as u64));
}

// ---------------------------------------------------------------- laws

proof fn lemma_varint_value(v: nat)
    ensures
        group_value(varint(v)) == v,
    decreases v,
{
    if v < 128 {
        assert(varint(v).drop_first() =~= Seq::<u8>::empty());
        assert(group_value(varint(v)) == (varint(v)[0] % 128) as nat + 128 * group_value(
            Seq::<u8>::empty(),
        ));
    } else {
        lemma_varint_value(v / 128);
        assert(varint(v).drop_first() =~= varint(v / 128));
    }
}

proof fn lemma_varint_extent(bytes: Seq<u8>, pos: int, seen: nat, v: nat)
    requires
        0 <= pos,
        seen <= 9,
        v < pow(128, (10 - seen) as nat),
        pos + seen + varint(v).len() <= bytes.len(),
        bytes.subrange(pos + seen, (pos + seen + varint(v).len()) as int) == varint(v),
    ensures
        varint_extent(bytes, pos, seen) == Ok::<nat, Seq<char>>(seen + varint(v).len()),
    decreases v,
{
    reveal(pow);
    let here = bytes.subrange(pos + seen, (pos + seen + varint(v).len()) as int);
    assert(bytes[pos + seen] == here[0]);
    if v >= 128 {
        if seen == 9 {
            assert(pow(128, 1) == 128 * pow(128, 0));
            assert(false);
        }
        assert(pow(128, (10 - seen) as nat) == 128 * pow(128, (10 - seen - 1) as nat));
        assert(bytes.subrange(
            pos + seen + 1,
            (pos + seen + 1 + varint(v / 128).len()) as int,
        ) =~= here.drop_first());
        assert(here.drop_first() =~= varint(v / 128));
        lemma_varint_extent(bytes, pos, seen + 1, v / 128);
    }
}

/// Groups of seven bits spell a number place by place: what stands behind `a`
/// weighs 128 times as much for every byte of `a`, and of one byte the low
/// seven bits count.
pub proof fn law_group_places(a: Seq<u8>, b: Seq<u8>)
    ensures
        group_value(a + b) == group_value(a) + pow(128, a.len()) * group_value(b),
        a.len() == 0 ==> group_value(a) == 0,
        a.len() == 1 ==> group_value(a) == a[0] % 128,
    decreases a.len(),
{
    reveal(pow);
    if a.len() == 0 {
        assert(a + b =~= b);
    } else {
        let rest = a.drop_first();
        law_group_places(rest, b);
        assert((a + b).drop_first() =~= rest + b);
        let (p, x) = (pow(128, rest.len()), group_value(b) as int);
        assert(pow(128, a.len()) == 128 * p);
        assert(128 * (p * x) == (128 * p) * x) by (nonlinear_arith);
    }
}

/// A varint is the number in groups of seven bits, the lowest first: every
/// byte but the last carries the continuation bit, and the last is zero for
/// zero alone.
pub proof fn law_varint_bytes(v: nat)
    ensures
        varint(v).len() >= 1,
        varint(v).last() < 128,
        forall|i: int| 0 <= i < varint(v).len() - 1 ==> #[trigger] varint(v)[i] >= 128,
        varint(v).last() == 0 ==> v == 0,
        group_value(varint(v)) == v,
    decreases v,
{
    lemma_varint_value(v);
    if v >= 128 {
        law_varint_bytes(v / 128);
        let rest = varint(v / 128);
        assert(varint(v).last() == rest.last());
        assert forall|i: int| 0 <= i < varint(v).len() - 1 implies #[trigger] varint(v)[i]
            >= 128 by {
            if i > 0 {
                assert(varint(v)[i] == rest[i - 1]);
            }
        }
    }
}

/// Reading a varint: `n` bytes, of which all but the last carry the
/// continuation bit, spell a number, of which the low 64 bits count. Ten such
/// bytes that all carry it are too many; where the bytes end first, the
/// position of the end is named. Reading stops behind the last byte that was
/// looked at.
pub proof fn law_varint_read(bytes: Seq<u8>, pos: int, n: int)
    requires
        0 <= pos,
        0 <= n <= 9,
        n > 0 ==> pos + n <= bytes.len(),
        forall|i: int| pos <= i < pos + n ==> #[trigger] bytes[i] >= 128,
    ensures
        pos + n >= bytes.len() ==> varint_at(bytes, pos) == Err::<(u64, int), Seq<char>>(
            "varint truncated at byte "@ + decimal((pos + n) as nat),
        ),
        pos + n < bytes.len() && bytes[pos + n] < 128 ==> varint_at(bytes, pos) == Ok::<
            (u64, int),
            Seq<char>,
        >(
            (
                (group_value(bytes.subrange(pos, pos + n + 1)) % two64()) as u64,
                pos + n + 1,
            ),
        ),
        n == 9 && pos + n < bytes.len() && bytes[pos + n] >= 128 ==> varint_at(bytes, pos) == Err::<
            (u64, int),
            Seq<char>,
        >("varint too long"@),
        varint_stop(bytes, pos, 0) == if pos + n >= bytes.len() {
            pos + n
        } else if n == 9 || bytes[pos + n] < 128 {
            pos + n + 1
        } else {
            varint_stop(bytes, pos, n as nat)
        },
{
    lemma_extent_from(bytes, pos, 0, n as nat);
    assert((pos + n) as nat == pos + n as nat);
}

proof fn lemma_extent_from(bytes: Seq<u8>, pos: int, seen: nat, n: nat)
    requires
        0 <= pos,
        seen <= n <= 9,
        n > 0 ==> pos + n <= bytes.len(),
        forall|i: int| pos <= i < pos + n ==> #[trigger] bytes[i] >= 128,
    ensures
        varint_extent(bytes, pos, seen) == varint_extent(bytes, pos, n),
        varint_stop(bytes, pos, seen) == varint_stop(bytes, pos, n),
    decreases n - seen,
{
    if seen < n {
        assert(bytes[pos + seen] >= 128);
        lemma_extent_from(bytes, pos, seen + 1, n);
    }
}

/// Reading a byte string: its length comes first, and as many bytes must
/// follow.
pub proof fn law_bytes_read(bytes: Seq<u8>, pos: int)
    ensures
        match varint_at(bytes, pos) {
            Err(e) => bytes_at(bytes, pos) == Err::<(Seq<u8>, int), Seq<char>>(e),
            Ok((len, start)) => if start + len <= bytes.len() {
                bytes_at(bytes, pos) == Ok::<(Seq<u8>, int), Seq<char>>(
                    (bytes.subrange(start, start + len), start + len),
                )
            } else {
                bytes_at(bytes, pos) == Err::<(Seq<u8>, int), Seq<char>>(
                    "bytes field truncated at byte "@ + decimal(start as nat),
                )
            },
        },
{
}

/// Reading a tag: its low three bits are the wire type, the 32 bits above them
/// the field number, which is not zero.
pub proof fn law_tag_read(bytes: Seq<u8>, pos: int)
    ensures
        match varint_at(bytes, pos) {
            Err(e) => tag_at(bytes, pos) == Err::<((u32, u32), int), Seq<char>>(e),
            Ok((t, next)) => {
                let number = t as int / 8 % 0x1_0000_0000;
                if number == 0 {
                    tag_at(bytes, pos) == Err::<((u32, u32), int), Seq<char>>(
                        "invalid field number 0"@,
                    )
                } else {
                    tag_at(bytes, pos) == Ok::<((u32, u32), int), Seq<char>>(
                        ((number as u32, (t as int % 8) as u32), next),
                    )
                }
            },
        },
{
}

/// What a field carries: a varint for wire type 0, eight bytes for 1, a byte
/// string for 2, four bytes for 5; there are no others.
pub proof fn law_payload_read(bytes: Seq<u8>, pos: int, wire: u32)
    ensures
        wire == 0 ==> match (varint_at(bytes, pos), payload_at(bytes, pos, 0)) {
            (Ok((v, next)), Ok((Payload::Varint(w), end))) => v == w && next == end,
            (Err(a), Err(b)) => a == b,
            _ => false,
        },
        wire == 1 ==> payload_at(bytes, pos, 1) == if pos + 8 <= bytes.len() {
            Ok::<(Payload, int), Seq<char>>((Payload::Fixed64, pos + 8))
        } else {
            Err("fixed64 field truncated"@)
        },
        wire == 2 ==> match (bytes_at(bytes, pos), payload_at(bytes, pos, 2)) {
            (Ok((v, next)), Ok((Payload::Bytes(w), end))) => v == w && next == end,
            (Err(a), Err(b)) => a == b,
            _ => false,
        },
        wire == 5 ==> payload_at(bytes, pos, 5) == if pos + 4 <= bytes.len() {
            Ok::<(Payload, int), Seq<char>>((Payload::Fixed32, pos + 4))
        } else {
            Err("fixed32 field truncated"@)
        },
        wire != 0 && wire != 1 && wire != 2 && wire != 5 ==> payload_at(bytes, pos, wire) == Err::<
            (Payload, int),
            Seq<char>,
        >("unsupported wire type "@ + decimal(wire as nat)),
{
}

/// Fields are read one behind the other to the end of the bytes: a tag and
/// what it says that the field carries. A field that cannot be read makes the
/// whole unreadable.
pub proof fn law_fields_read(bytes: Seq<u8>, pos: int)
    ensures
        pos >= bytes.len() ==> fields_from(bytes, pos) == Ok::<Seq<Field>, Seq<char>>(Seq::empty()),
        pos < bytes.len() ==> match tag_at(bytes, pos) {
            Err(e) => fields_from(bytes, pos) == Err::<Seq<Field>, Seq<char>>(e),
            Ok(((number, wire), start)) => match payload_at(bytes, start, wire) {
                Err(e) => fields_from(bytes, pos) == Err::<Seq<Field>, Seq<char>>(e),
                Ok((payload, next)) => match fields_from(bytes, next) {
                    Err(e) => fields_from(bytes, pos) == Err::<Seq<Field>, Seq<char>>(e),
                    Ok(rest) => fields_from(bytes, pos) == Ok::<Seq<Field>, Seq<char>>(
                        seq![Field { number, payload }] + rest,
                    ),
                },
            },
        },
{
    lemma_field_at_bounds(bytes, pos);
}

/// The tag of a field with a number below 16 is one byte.
pub proof fn law_small_tag(number: u32, wire: u32)
    requires
        number < 16,
        wire < 8,
    ensures
        tag(number, wire) == seq![(8 * number + wire) as u8],
{
    let t: u64 = ((number as u64) << 3) | (wire as u64);
    assert(t == number * 8 + wire) by (bit_vector)
        requires
            t == ((number as u64) << 3) | (wire as u64),
            wire < 8,
    ;
}

/// A varint that was written reads back as the number it was written for,
/// wherever it stands.
pub proof fn law_varint_round_trip(prefix: Seq<u8>, v: u64, rest: Seq<u8>)
    ensures
        varint_at(prefix + varint(v as nat) + rest, prefix.len() as int) == Ok::<
            (u64, int),
            Seq<char>,
        >((v, (prefix.len() + varint(v as nat).len()) as int)),
{
    let coded = varint(v as nat);
    let bytes = prefix + coded + rest;
    let pos = prefix.len() as int;
    assert(bytes.subrange(pos, (pos + coded.len()) as int) =~= coded);
    assert(v < pow(128, 10)) by {
        reveal_with_fuel(pow, 11);
    }
    lemma_varint_extent(bytes, pos, 0, v as nat);
    lemma_varint_value(v as nat);
    vstd::arithmetic::div_mod::lemma_small_mod(v as nat, two64());
    assert(varint_extent(bytes, pos, 0) == Ok::<nat, Seq<char>>(coded.len()));
    assert(bytes.subrange(pos, pos + coded.len()) =~= coded);
}

/// Where the bytes run out inside a varint, reading stops at their end, or
/// where it began when that is behind the end.
pub proof fn law_varint_runs_out(bytes: Seq<u8>, pos: int)
    requires
        0 <= pos,
        bytes.len() < pos + 10,
        forall|i: int| pos <= i < bytes.len() ==> #[trigger] bytes[i] >= 128,
    ensures
        varint_at(bytes, pos) is Err,
        varint_stop(bytes, pos, 0) == if pos <= bytes.len() {
            bytes.len() as int
        } else {
            pos
        },
{
    lemma_varint_runs_out(bytes, pos, 0);
}

proof fn lemma_varint_runs_out(bytes: Seq<u8>, pos: int, seen: nat)
    requires
        0 <= pos,
        seen <= 9,
        seen == 0 || pos + seen <= bytes.len(),
        bytes.len() < pos + 10,
        forall|i: int| pos <= i < bytes.len() ==> #[trigger] bytes[i] >= 128,
    ensures
        varint_extent(bytes, pos, seen) is Err,
        varint_stop(bytes, pos, seen) == if pos <= bytes.len() {
            bytes.len() as int
        } else {
            pos
        },
    decreases 10 - seen,
{
    if pos + seen < bytes.len() {
        assert(bytes[pos + seen] >= 128);
        lemma_varint_runs_out(bytes, pos, seen + 1);
    }
}

/// A length-delimited byte string that was written reads back, wherever it
/// stands.
pub proof fn law_bytes_round_trip(prefix: Seq<u8>, data: Seq<u8>, rest: Seq<u8>)
    requires
        data.len() < two64(),
    ensures
        bytes_at(prefix + delimited(data) + rest, prefix.len() as int) == Ok::<
            (Seq<u8>, int),
            Seq<char>,
        >((data, (prefix.len() + delimited(data).len()) as int)),
{
    let len = varint(data.len());
    let bytes = prefix + delimited(data) + rest;
    assert(bytes =~= prefix + len + (data + rest));
    law_varint_round_trip(prefix, data.len() as u64, data + rest);
    let start = (prefix.len() + len.len()) as int;
    assert(bytes.subrange(start, (start + data.len()) as int) =~= data);
}

/// A tag that was written reads back, wherever it stands.
pub proof fn law_tag_round_trip(prefix: Seq<u8>, number: u32, wire: u32, rest: Seq<u8>)
    requires
        number != 0,
        wire < 8,
    ensures
        tag_at(prefix + tag(number, wire) + rest, prefix.len() as int) == Ok::<
            ((u32, u32), int),
            Seq<char>,
        >(((number, wire), (prefix.len() + tag(number, wire).len()) as int)),
{
    let t: u64 = ((number as u64) << 3) | (wire as u64);
    assert(t == number * 8 + wire) by (bit_vector)
        requires
            t == ((number as u64) << 3) | (wire as u64),
            wire < 8,
    ;
    law_varint_round_trip(prefix, t, rest);
}

/// What was read inside `bytes` reads the same when more bytes follow.
proof fn lemma_varint_prefix(bytes: Seq<u8>, more: Seq<u8>, pos: int, seen: nat)
    requires
        0 <= pos,
        seen <= 9,
        varint_extent(bytes, pos, seen) is Ok,
    ensures
        varint_extent(bytes + more, pos, seen) == varint_extent(bytes, pos, seen),
    decreases 10 - seen,
{
    if bytes[pos + seen] >= 128 {
        lemma_varint_prefix(bytes, more, pos, seen + 1);
    }
}

proof fn lemma_varint_at_prefix(bytes: Seq<u8>, more: Seq<u8>, pos: int)
    requires
        0 <= pos,
        varint_at(bytes, pos) is Ok,
    ensures
        varint_at(bytes + more, pos) == varint_at(bytes, pos),
{
    lemma_varint_prefix(bytes, more, pos, 0);
    lemma_varint_extent_bounds(bytes, pos, 0);
    let n = varint_extent(bytes, pos, 0)->Ok_0;
    assert((bytes + more).subrange(pos, pos + n) =~= bytes.subrange(pos, pos + n));
}

/// A field that was read inside `bytes` reads the same when more bytes
/// follow.
pub proof fn lemma_field_prefix(bytes: Seq<u8>, more: Seq<u8>, pos: int)
    requires
        0 <= pos,
        field_at(bytes, pos) is Ok,
    ensures
        field_at(bytes + more, pos) == field_at(bytes, pos),
{
    lemma_varint_at_prefix(bytes, more, pos);
    let ((_, wire), start) = tag_at(bytes, pos)->Ok_0;
    lemma_varint_extent_bounds(bytes, pos, 0);
    if wire == 0 || wire == 2 {
        lemma_varint_at_prefix(bytes, more, start);
        lemma_varint_extent_bounds(bytes, start, 0);
        if wire == 2 {
            let (len, at) = varint_at(bytes, start)->Ok_0;
            assert((bytes + more).subrange(at, at + len) =~= bytes.subrange(at, at + len));
        }
    }
}

/// Messages concatenate: when `front` is made of whole fields, the fields of
/// `front + back` are those of `front` and then those that follow.
pub proof fn law_fields_concatenate(front: Seq<u8>, back: Seq<u8>, pos: int)
    requires
        0 <= pos <= front.len(),
        fields_from(front, pos) is Ok,
    ensures
        fields_from(front + back, pos) == match fields_from(front + back, front.len() as int) {
            Ok(rest) => Ok(fields_from(front, pos)->Ok_0 + rest),
            Err(e) => Err(e),
        },
    decreases front.len() - pos,
{
    let all = front + back;
    if pos == front.len() {
        if let Ok(rest) = fields_from(all, pos) {
            assert(Seq::<Field>::empty() + rest =~= rest);
        }
    } else {
        lemma_field_at_bounds(front, pos);
        lemma_field_prefix(front, back, pos);
        let (f, next) = field_at(front, pos)->Ok_0;
        law_fields_concatenate(front, back, next);
        if let Ok(rest) = fields_from(all, front.len() as int) {
            let mid = fields_from(front, next)->Ok_0;
            assert(seq![f] + (mid + rest) =~= (seq![f] + mid) + rest);
        }
    }
}

} // verus!
