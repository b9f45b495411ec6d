//! The protobuf wire format, as far as the ONNX writer needs it: base-128
//! integers, integer fields and length-delimited fields.
use vstd::prelude::*;

verus! {

// ---------------------------------------------------------------------------
// The format.
// ---------------------------------------------------------------------------

/// `v` in base 128, the lowest digit first; every byte but the last has its
/// high bit set.
pub open spec fn varint(v: nat) -> Seq<u8>
    decreases v,
{
    if v < 128 {
        seq![v as u8]
    } else {
        seq![(v % 128 + 128) as u8] + varint(v / 128)
    }
}

/// One field of a message.
pub enum Field {
    /// Wire type 0.
    Varint { number: nat, value: nat },
    /// Wire type 2: bytes, a string or a message of its own.
    Bytes { number: nat, data: Seq<u8> },
}

/// A field on the wire: its number and wire type, then what it holds.
pub open spec fn encode_field(field: Field) -> Seq<u8> {
    match field {
        Field::Varint { number, value } => varint(number * 8) + varint(value),
        Field::Bytes { number, data } => varint(number * 8 + 2) + varint(data.len()) + data,
    }
}

/// A message on the wire: its fields in order.
pub open spec fn encode(fields: Seq<Field>) -> Seq<u8>
    decreases fields.len(),
{
    if fields.len() == 0 {
        Seq::empty()
    } else {
        encode(fields.drop_last()) + encode_field(fields.last())
    }
}

/// A field that holds a text.
pub open spec fn text_field(number: nat, text: Seq<char>) -> Field {
    Field::Bytes { number, data: vstd::utf8::encode_utf8(text) }
}

/// The same field once for each of the given contents.
pub open spec fn repeated(number: nat, contents: Seq<Seq<u8>>) -> Seq<Field> {
    Seq::new(contents.len(), |i: int| Field::Bytes { number, data: contents[i] })
}

/// The contents of a list of byte strings.
pub open spec fn bytes_of(list: Seq<Vec<u8>>) -> Seq<Seq<u8>> {
    Seq::new(list.len(), |i: int| list[i]@)
}

/// A signed integer as the wire carries it: in two's complement of 64 bits.
pub open spec fn wire_int(v: int) -> nat {
    if v >= 0 {
        v as nat
    } else {
        (v + 0x1_0000_0000_0000_0000) as nat
    }
}

// ---------------------------------------------------------------------------
// Reading it back.
// ---------------------------------------------------------------------------

/// The base-128 integer at the front of `bytes`, and how many bytes it takes.
pub open spec fn read_varint(bytes: Seq<u8>) -> Option<(nat, nat)>
    decreases bytes.len(),
{
    if bytes.len() == 0 {
        None
    } else if bytes[0] < 128 {
        Some((bytes[0] as nat, 1))
    } else {
        match read_varint(bytes.drop_first()) {
            Some((high, len)) => Some(((bytes[0] - 128 + 128 * high) as nat, len + 1)),
            None => None,
        }
    }
}

/// The field at the front of `bytes`, and how many bytes it takes.
pub open spec fn read_field(bytes: Seq<u8>) -> Option<(Field, nat)> {
    match read_varint(bytes) {
        Some((tag, n)) => match read_varint(bytes.skip(n as int)) {
            Some((value, m)) => if tag % 8 == 0 {
                Some((Field::Varint { number: tag / 8, value }, n + m))
            } else if tag % 8 == 2 && n + m + value <= bytes.len() {
                Some(
                    (
                        Field::Bytes {
                            number: tag / 8,
                            data: bytes.subrange((n + m) as int, (n + m + value) as int),
                        },
                        n + m + value,
                    ),
                )
            } else {
                None
            },
            None => None,
        },
        None => None,
    }
}

/// The fields of the message `bytes`, if it is one.
pub open spec fn decode(bytes: Seq<u8>) -> Option<Seq<Field>>
    decreases bytes.len(),
{
    if bytes.len() == 0 {
        Some(Seq::empty())
    } else {
        match read_field(bytes) {
            Some((field, n)) => if 0 < n <= bytes.len() {
                match decode(bytes.skip(n as int)) {
                    Some(rest) => Some(seq![field] + rest),
                    None => None,
                }
            } else {
                None
            },
            None => None,
        }
    }
}

// ---------------------------------------------------------------------------
// Laws.
// ---------------------------------------------------------------------------

/// An integer reads back as it was written, whatever follows it.
pub proof fn law_varint_reads_back(v: nat, rest: Seq<u8>)
    ensures
        read_varint(varint(v) + rest) == Some((v, varint(v).len())),
    decreases v,
{
    let bytes = varint(v) + rest;
    if v < 128 {
        assert(bytes[0] == v as u8);
    } else {
        law_varint_reads_back(v / 128, rest);
        assert(bytes[0] == (v % 128 + 128) as u8);
        assert(bytes.drop_first() =~= varint(v / 128) + rest);
        assert(v == v % 128 + 128 * (v / 128));
    }
}

/// A 64-bit integer takes at most ten bytes.
pub proof fn law_varint_length(v: u64)
    ensures
        1 <= varint(v as nat).len() <= 10,
{
    reveal_with_fuel(varint, 11);
}

/// A message reads back as it was written: the same fields in the same order.
pub proof fn law_message_reads_back(fields: Seq<Field>)
    ensures
        decode(encode(fields)) == Some(fields),
    decreases fields.len(),
{
    if fields.len() == 0 {
        assert(fields =~= Seq::empty());
    } else {
        let first = fields[0];
        let rest = fields.drop_first();
        assert(fields =~= seq![first] + rest);
        lemma_encode_concat(seq![first], rest);
        lemma_encode_one(first);
        lemma_field_reads_back(first, encode(rest));
        let bytes = encode(fields);
        let n = encode_field(first).len();
        assert(bytes =~= encode_field(first) + encode(rest));
        assert(bytes.skip(n as int) =~= encode(rest));
        law_message_reads_back(rest);
        assert(decode(bytes) == Some(seq![first] + rest));
    }
}

/// Two messages that are the same on the wire have the same fields.
pub proof fn law_message_determines_fields(a: Seq<Field>, b: Seq<Field>)
    requires
        encode(a) == encode(b),
    ensures
        a == b,
{
    law_message_reads_back(a);
    law_message_reads_back(b);
}

pub proof fn lemma_varint_nonempty(v: nat)
    ensures
        varint(v).len() >= 1,
    decreases v,
{
    if v >= 128 {
        lemma_varint_nonempty(v / 128);
    }
}

proof fn lemma_field_reads_back(field: Field, rest: Seq<u8>)
    ensures
        read_field(encode_field(field) + rest) == Some((field, encode_field(field).len())),
        encode_field(field).len() > 0,
{
    let bytes = encode_field(field) + rest;
    match field {
        Field::Varint { number, value } => {
            let tag = varint(number * 8);
            lemma_varint_nonempty(number * 8);
            assert(bytes =~= tag + (varint(value) + rest));
            law_varint_reads_back(number * 8, varint(value) + rest);
            assert(bytes.skip(tag.len() as int) =~= varint(value) + rest);
            law_varint_reads_back(value, rest);
        },
        Field::Bytes { number, data } => {
            let tag = varint(number * 8 + 2);
            let size = varint(data.len());
            lemma_varint_nonempty(number * 8 + 2);
            assert(bytes =~= tag + (size + (data + rest)));
            law_varint_reads_back(number * 8 + 2, size + (data + rest));
            assert(bytes.skip(tag.len() as int) =~= size + (data + rest));
            law_varint_reads_back(data.len(), data + rest);
            assert(bytes.subrange(
                (tag.len() + size.len()) as int,
                (tag.len() + size.len() + data.len()) as int,
            ) =~= data);
        },
    }
}

/// A message of one field.
pub proof fn lemma_encode_one(field: Field)
    ensures
        encode(seq![field]) == encode_field(field),
{
    assert(seq![field].drop_last() =~= Seq::<Field>::empty());
    assert(encode(Seq::<Field>::empty()) =~= Seq::<u8>::empty());
    assert(encode(seq![field]) =~= encode_field(field));
}

/// A message with one field more.
pub proof fn lemma_encode_push(fields: Seq<Field>, field: Field)
    ensures
        encode(fields.push(field)) == encode(fields) + encode_field(field),
{
    assert(fields.push(field).drop_last() =~= fields);
}

/// The fields of two messages, one after the other.
pub proof fn lemma_encode_concat(a: Seq<Field>, b: Seq<Field>)
    ensures
        encode(a + b) == encode(a) + encode(b),
    decreases b.len(),
{
    if b.len() == 0 {
        assert(a + b =~= a);
        assert(encode(b) =~= Seq::<u8>::empty());
        assert(encode(a + b) =~= encode(a) + encode(b));
    } else {
        lemma_encode_concat(a, b.drop_last());
        assert((a + b).drop_last() =~= a + b.drop_last());
        assert(encode(a + b) =~= encode(a) + encode(b));
    }
}

// ---------------------------------------------------------------------------
// Writing it.
// ---------------------------------------------------------------------------

/// Appends `v` in base 128.
pub fn put_varint(out: &mut Vec<u8>, v: u64)
    ensures
        final(out)@ == old(out)@ + varint(v as nat),
{
    let mut left: u64 = v;
    while left >= 128
        invariant
            out@ + varint(left as nat) == old(out)@ + varint(v as nat),
        decreases left,
    {
        let ghost before = out@;
        let byte: u8 = (left % 128) as u8;
        out.push(byte + 128);
        assert(before + varint(left as nat) =~= out@ + varint((left / 128) as nat));
        left = left / 128;
    }
    let ghost before = out@;
    out.push(left as u8);
    assert(before + varint(left as nat) =~= out@);
}

/// Appends an integer field.
pub fn f_varint(out: &mut Vec<u8>, field: u32, val: u64)
    ensures
        final(out)@ == old(out)@ + encode_field(
            Field::Varint { number: field as nat, value: val as nat },
        ),
{
    put_varint(out, field as u64 * 8);
    put_varint(out, val);
    assert(out@ =~= old(out)@ + encode_field(
        Field::Varint { number: field as nat, value: val as nat },
    ));
}

/// Appends the bytes of `data`.
pub fn put_bytes(out: &mut Vec<u8>, data: &[u8])
    ensures
        final(out)@ == old(out)@ + data@,
{
    let mut i: usize = 0;
    while i < data.len()
        invariant
            i <= data@.len(),
            out@ == old(out)@ + data@.take(i as int),
        decreases data@.len() - i,
    {
        out.push(data[i]);
        i += 1;
        assert(out@ =~= old(out)@ + data@.take(i as int));
    }
    assert(data@.take(i as int) =~= data@);
}

/// Appends a length-delimited field: bytes, a string or a message.
pub fn f_bytes(out: &mut Vec<u8>, field: u32, data: &[u8])
    ensures
        final(out)@ == old(out)@ + encode_field(
            Field::Bytes { number: field as nat, data: data@ },
        ),
{
    put_varint(out, field as u64 * 8 + 2);
    put_varint(out, data.len() as u64);
    put_bytes(out, data);
    assert(out@ =~= old(out)@ + encode_field(Field::Bytes { number: field as nat, data: data@ }));
}

/// Appends a text field.
pub fn f_str(out: &mut Vec<u8>, field: u32, s: &str)
    ensures
        final(out)@ == old(out)@ + encode_field(text_field(field as nat, s@)),
{
    f_bytes(out, field, s.as_bytes());
}

/// Appends the same field once for each of the given contents.
pub fn f_repeated(out: &mut Vec<u8>, field: u32, contents: &Vec<Vec<u8>>)
    ensures
        final(out)@ == old(out)@ + encode(repeated(field as nat, bytes_of(contents@))),
{
    let ghost all = repeated(field as nat, bytes_of(contents@));
    let mut i: usize = 0;
    assert(out@ =~= old(out)@ + encode(all.take(0)));
    while i < contents.len()
        invariant
            all == repeated(field as nat, bytes_of(contents@)),
            i <= contents@.len(),
            out@ == old(out)@ + encode(all.take(i as int)),
        decreases contents@.len() - i,
    {
        f_bytes(out, field, contents[i].as_slice());
        proof {
            lemma_encode_push(all.take(i as int), all[i as int]);
            assert(all.take(i + 1) =~= all.take(i as int).push(all[i as int]));
        }
        i += 1;
        assert(out@ =~= old(out)@ + encode(all.take(i as int)));
    }
    assert(all.take(i as int) =~= all);
}

/// A signed integer as the wire carries it.
pub fn to_wire(v: i64) -> (r: u64)
    ensures
        r == wire_int(v as int),
{
    if v >= 0 {
        v as u64
    } else {
        (v as i128 + 0x1_0000_0000_0000_0000) as u64
    }
}

/// A count as a signed integer that the wire carries unchanged.
pub fn to_dim(n: usize) -> (r: i64)
    ensures
        wire_int(r as int) == n,
{
    let wide: u64 = n as u64;
    if wide <= 0x7fff_ffff_ffff_ffff {
        wide as i64
    } else {
        (wide as i128 - 0x1_0000_0000_0000_0000) as i64
    }
}

/// A small field takes two bytes before its content: its number times eight, plus
/// two where bytes follow, and then its value or how many bytes follow.
pub proof fn law_small_fields(number: nat, value: nat, data: Seq<u8>)
    requires
        number < 16,
        value < 128,
        data.len() < 128,
    ensures
        encode_field(Field::Varint { number, value }) == seq![(8 * number) as u8, value as u8],
        encode_field(Field::Bytes { number, data }) == seq![
            (8 * number + 2) as u8,
            data.len() as u8,
        ] + data,
{
    assert(encode_field(Field::Varint { number, value }) =~= seq![
        (8 * number) as u8,
        value as u8,
    ]);
    assert(encode_field(Field::Bytes { number, data }) =~= seq![
        (8 * number + 2) as u8,
        data.len() as u8,
    ] + data);
}

/// A signed integer is carried in two's complement of 64 bits.
pub proof fn law_two_complement(v: i64)
    ensures
        0 <= wire_int(v as int) < 0x1_0000_0000_0000_0000,
        (wire_int(v as int) - v) % 0x1_0000_0000_0000_0000 == 0,
{
}

} // verus!
