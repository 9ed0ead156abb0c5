//! The building blocks of the wire format: big-endian integers,
//! variable-length integers, booleans, byte strings and text.
//!
//! An integer below 251 is one byte. Otherwise a marker byte says how many
//! big-endian bytes follow: 251 for two, 252 for four, 253 for eight.
//! Collections are preceded by their length as such an integer.

use vstd::prelude::*;
use vstd::utf8::{decode_utf8, encode_utf8, valid_utf8};

verus! {

/// A value read at some position of a byte string, and the position after it.
pub struct Taken<T> {
    pub value: T,
    pub next: int,
}

/// A value read by executable code, and the position after it.
pub struct Parsed<T> {
    pub value: T,
    pub next: usize,
}

/// Whether the executable result stands for the specified one.
pub open spec fn agrees<T, M>(parsed: Option<Parsed<T>>, taken: Option<Taken<M>>, model: spec_fn(T) -> M) -> bool {
    match parsed {
        Some(p) => taken == Some(Taken { value: model(p.value), next: p.next as int }),
        None => taken is None,
    }
}

/// Whether `bytes` stand in `s` from position `pos` on.
pub open spec fn has_at(s: Seq<u8>, pos: int, bytes: Seq<u8>) -> bool {
    &&& 0 <= pos
    &&& pos + bytes.len() <= s.len()
    &&& s.subrange(pos, pos + bytes.len()) == bytes
}

/// The number of values that `width` bytes can hold.
pub open spec fn pow256(width: nat) -> nat
    decreases width,
{
    if width == 0 {
        1
    } else {
        256 * pow256((width - 1) as nat)
    }
}

/// `value` in `width` bytes, most significant first.
pub open spec fn be_bytes(value: nat, width: nat) -> Seq<u8>
    decreases width,
{
    if width == 0 {
        Seq::empty()
    } else {
        be_bytes(value / 256, (width - 1) as nat).push((value % 256) as u8)
    }
}

/// The value of bytes read most significant first.
pub open spec fn be_value(bytes: Seq<u8>) -> nat
    decreases bytes.len(),
{
    if bytes.len() == 0 {
        0
    } else {
        be_value(bytes.drop_last()) * 256 + bytes.last() as nat
    }
}

/// A variable-length integer.
pub open spec fn varint(value: nat) -> Seq<u8> {
    if value < 251 {
        seq![value as u8]
    } else if value < 0x1_0000 {
        seq![251u8] + be_bytes(value, 2)
    } else if value < 0x1_0000_0000 {
        seq![252u8] + be_bytes(value, 4)
    } else {
        seq![253u8] + be_bytes(value, 8)
    }
}

/// The number of bytes that follow a marker byte; 0 where the byte is no
/// marker of an integer of at most eight bytes.
pub open spec fn marker_width(marker: u8) -> nat {
    if marker == 251 {
        2
    } else if marker == 252 {
        4
    } else if marker == 253 {
        8
    } else {
        0
    }
}

/// Reads a variable-length integer of at most `limit` bytes at `pos`. A
/// value need not be in its shortest form.
pub open spec fn parse_varint(s: Seq<u8>, pos: int, limit: nat) -> Option<Taken<nat>> {
    if !(0 <= pos < s.len()) {
        None
    } else if s[pos] < 251 {
        Some(Taken { value: s[pos] as nat, next: pos + 1 })
    } else {
        let width = marker_width(s[pos]);
        if width == 0 || width > limit || pos + 1 + width > s.len() {
            None
        } else {
            Some(Taken { value: be_value(s.subrange(pos + 1, pos + 1 + width)), next: pos + 1 + width })
        }
    }
}

/// A boolean: one byte, 0 or 1.
pub open spec fn bool_byte(value: bool) -> Seq<u8> {
    seq![if value { 1u8 } else { 0u8 }]
}

/// Reads a boolean at `pos`.
pub open spec fn parse_bool(s: Seq<u8>, pos: int) -> Option<Taken<bool>> {
    if !(0 <= pos < s.len()) || s[pos] > 1 {
        None
    } else {
        Some(Taken { value: s[pos] == 1, next: pos + 1 })
    }
}

/// A byte string: its length, then the bytes.
pub open spec fn blob(bytes: Seq<u8>) -> Seq<u8> {
    varint(bytes.len()) + bytes
}

/// Reads a byte string at `pos`.
pub open spec fn parse_blob(s: Seq<u8>, pos: int) -> Option<Taken<Seq<u8>>> {
    match parse_varint(s, pos, 8) {
        None => None,
        Some(len) => if len.next + len.value > s.len() {
            None
        } else {
            Some(Taken { value: s.subrange(len.next, len.next + len.value), next: len.next + len.value })
        },
    }
}

/// A text: the byte string of its UTF-8 form.
pub open spec fn text(chars: Seq<char>) -> Seq<u8> {
    blob(encode_utf8(chars))
}

/// Reads a text at `pos`.
pub open spec fn parse_text(s: Seq<u8>, pos: int) -> Option<Taken<Seq<char>>> {
    match parse_blob(s, pos) {
        None => None,
        Some(bytes) => if valid_utf8(bytes.value) {
            Some(Taken { value: decode_utf8(bytes.value), next: bytes.next })
        } else {
            None
        },
    }
}

/// A part of a byte string that stands at a position stands there in pieces.
pub proof fn lemma_has_at_split(s: Seq<u8>, pos: int, a: Seq<u8>, b: Seq<u8>)
    requires
        has_at(s, pos, a + b),
    ensures
        has_at(s, pos, a),
        has_at(s, pos + a.len(), b),
{
    let whole = s.subrange(pos, pos + (a + b).len());
    assert(s.subrange(pos, pos + a.len()) =~= whole.subrange(0, a.len() as int));
    assert((a + b).subrange(0, a.len() as int) =~= a);
    assert(s.subrange(pos + a.len(), pos + a.len() + b.len()) =~= whole.subrange(
        a.len() as int,
        (a + b).len() as int,
    ));
    assert((a + b).subrange(a.len() as int, (a + b).len() as int) =~= b);
}

/// Big-endian bytes have the width asked for.
pub proof fn lemma_be_len(value: nat, width: nat)
    ensures
        be_bytes(value, width).len() == width,
    decreases width,
{
    if width > 0 {
        lemma_be_len(value / 256, (width - 1) as nat);
    }
}

/// Reading big-endian bytes gives back the value they were made from.
pub proof fn lemma_be_roundtrip(value: nat, width: nat)
    requires
        value < pow256(width),
    ensures
        be_value(be_bytes(value, width)) == value,
    decreases width,
{
    if width > 0 {
        let front = be_bytes(value / 256, (width - 1) as nat);
        lemma_be_roundtrip(value / 256, (width - 1) as nat);
        assert(be_bytes(value, width).drop_last() =~= front);
    }
}

/// The value of `n` bytes is below `256^n`.
pub proof fn lemma_be_value_bound(bytes: Seq<u8>)
    ensures
        be_value(bytes) < pow256(bytes.len()),
    decreases bytes.len(),
{
    if bytes.len() > 0 {
        lemma_be_value_bound(bytes.drop_last());
    }
}

/// The powers of 256 that the format uses.
pub proof fn lemma_pow256()
    ensures
        pow256(1) == 0x100,
        pow256(2) == 0x1_0000,
        pow256(4) == 0x1_0000_0000,
        pow256(8) == 0x1_0000_0000_0000_0000,
        pow256(16) == 0x1_0000_0000_0000_0000_0000_0000_0000_0000,
{
    reveal_with_fuel(pow256, 17);
}

/// A variable-length integer is read back as the value it was made from.
pub proof fn lemma_varint_roundtrip(s: Seq<u8>, pos: int, value: nat, limit: nat)
    requires
        has_at(s, pos, varint(value)),
        value < pow256(limit),
        limit == 4 || limit == 8,
    ensures
        parse_varint(s, pos, limit) == Some(
            Taken { value, next: pos + varint(value).len() },
        ),
{
    lemma_pow256();
    let bytes = varint(value);
    assert(s[pos] == s.subrange(pos, pos + bytes.len())[0]);
    if value >= 251 {
        let width: nat = if value < 0x1_0000 {
            2
        } else if value < 0x1_0000_0000 {
            4
        } else {
            8
        };
        let marker: u8 = if value < 0x1_0000 {
            251
        } else if value < 0x1_0000_0000 {
            252
        } else {
            253
        };
        lemma_be_len(value, width);
        lemma_has_at_split(s, pos, seq![marker], be_bytes(value, width));
        lemma_be_roundtrip(value, width);
    }
}

/// A boolean is read back.
pub proof fn lemma_bool_roundtrip(s: Seq<u8>, pos: int, value: bool)
    requires
        has_at(s, pos, bool_byte(value)),
    ensures
        parse_bool(s, pos) == Some(Taken { value, next: pos + 1 }),
{
    assert(s[pos] == s.subrange(pos, pos + 1)[0]);
}

/// A byte string is read back.
pub proof fn lemma_blob_roundtrip(s: Seq<u8>, pos: int, bytes: Seq<u8>)
    requires
        has_at(s, pos, blob(bytes)),
        bytes.len() <= u64::MAX,
    ensures
        parse_blob(s, pos) == Some(Taken { value: bytes, next: pos + blob(bytes).len() }),
{
    lemma_pow256();
    lemma_has_at_split(s, pos, varint(bytes.len()), bytes);
    lemma_varint_roundtrip(s, pos, bytes.len(), 8);
}

/// A text is read back.
pub proof fn lemma_text_roundtrip(s: Seq<u8>, pos: int, chars: Seq<char>)
    requires
        has_at(s, pos, text(chars)),
        encode_utf8(chars).len() <= u64::MAX,
    ensures
        parse_text(s, pos) == Some(Taken { value: chars, next: pos + text(chars).len() }),
{
    lemma_blob_roundtrip(s, pos, encode_utf8(chars));
    vstd::utf8::encode_utf8_valid_utf8(chars);
    vstd::utf8::encode_utf8_decode_utf8(chars);
}

/// More bytes hold more values.
pub proof fn lemma_pow256_grows(a: nat, b: nat)
    requires
        a <= b,
    ensures
        pow256(a) <= pow256(b),
        pow256(a) > 0,
    decreases b,
{
    if a < b {
        lemma_pow256_grows(a, (b - 1) as nat);
    } else if a > 0 {
        lemma_pow256_grows((a - 1) as nat, (a - 1) as nat);
    }
}

/// Appends `value` in `width` bytes, most significant first.
pub fn put_be(out: &mut Vec<u8>, value: u128, width: usize)
    ensures
        final(out)@ == old(out)@ + be_bytes(value as nat, width as nat),
    decreases width,
{
    if width > 0 {
        put_be(out, value / 256, width - 1);
        out.push((value % 256) as u8);
        assert(out@ =~= old(out)@ + be_bytes(value as nat, width as nat));
    } else {
        assert(out@ =~= old(out)@ + be_bytes(value as nat, width as nat));
    }
}

/// Reads `width` bytes from `start` on, most significant first.
pub fn get_be(data: &[u8], start: usize, width: usize) -> (value: u128)
    requires
        width <= 16,
        start + width <= data@.len(),
    ensures
        value == be_value(data@.subrange(start as int, start + width)),
{
    let len = data.len();
    let mut value: u128 = 0;
    let mut k: usize = 0;
    while k < width
        invariant
            k <= width <= 16,
            len == data@.len(),
            start + width <= data@.len(),
            value == be_value(data@.subrange(start as int, start + k)),
            value < pow256(k as nat),
        decreases width - k,
    {
        proof {
            lemma_pow256();
            lemma_pow256_grows((k + 1) as nat, 16);
            assert(data@.subrange(start as int, start + k + 1).drop_last() =~= data@.subrange(
                start as int,
                start + k,
            ));
        }
        value = value * 256 + data[start + k] as u128;
        k += 1;
    }
    value
}

/// Appends a variable-length integer.
pub fn write_varint(out: &mut Vec<u8>, value: u64)
    ensures
        final(out)@ == old(out)@ + varint(value as nat),
{
    if value < 251 {
        out.push(value as u8);
        assert(out@ =~= old(out)@ + varint(value as nat));
    } else if value < 0x1_0000 {
        out.push(251);
        put_be(out, value as u128, 2);
        assert(out@ =~= old(out)@ + varint(value as nat));
    } else if value < 0x1_0000_0000 {
        out.push(252);
        put_be(out, value as u128, 4);
        assert(out@ =~= old(out)@ + varint(value as nat));
    } else {
        out.push(253);
        put_be(out, value as u128, 8);
        assert(out@ =~= old(out)@ + varint(value as nat));
    }
}

/// Reads a variable-length integer of at most `limit` bytes, which is 4 or 8.
pub fn read_varint(data: &[u8], pos: usize, limit: usize) -> (parsed: Option<Parsed<u64>>)
    requires
        limit == 4 || limit == 8,
    ensures
        agrees(parsed, parse_varint(data@, pos as int, limit as nat), |v: u64| v as nat),
        parsed is Some ==> parsed->0.value < pow256(limit as nat),
        parsed is Some ==> pos < parsed->0.next <= data@.len(),
{
    proof {
        lemma_pow256();
    }
    if pos >= data.len() {
        return None;
    }
    let marker = data[pos];
    if marker < 251 {
        return Some(Parsed { value: marker as u64, next: pos + 1 });
    }
    let width: usize = if marker == 251 {
        2
    } else if marker == 252 {
        4
    } else if marker == 253 {
        8
    } else {
        0
    };
    if width == 0 || width > limit || data.len() - pos - 1 < width {
        return None;
    }
    let value = get_be(data, pos + 1, width);
    proof {
        lemma_be_value_bound(data@.subrange(pos + 1, pos + 1 + width));
        lemma_pow256_grows(width as nat, limit as nat);
    }
    Some(Parsed { value: value as u64, next: pos + 1 + width })
}

/// Appends a boolean.
pub fn write_bool(out: &mut Vec<u8>, value: bool)
    ensures
        final(out)@ == old(out)@ + bool_byte(value),
{
    out.push(if value { 1 } else { 0 });
    assert(out@ =~= old(out)@ + bool_byte(value));
}

/// Reads a boolean.
pub fn read_bool(data: &[u8], pos: usize) -> (parsed: Option<Parsed<bool>>)
    ensures
        agrees(parsed, parse_bool(data@, pos as int), |v: bool| v),
        parsed is Some ==> pos < parsed->0.next <= data@.len(),
{
    if pos >= data.len() || data[pos] > 1 {
        None
    } else {
        Some(Parsed { value: data[pos] == 1, next: pos + 1 })
    }
}

/// Appends every byte of `bytes`.
pub fn append(out: &mut Vec<u8>, bytes: &[u8])
    ensures
        final(out)@ == old(out)@ + bytes@,
{
    let mut i: usize = 0;
    while i < bytes.len()
        invariant
            i <= bytes.len(),
            out@ == old(out)@ + bytes@.take(i as int),
        decreases bytes.len() - i,
    {
        out.push(bytes[i]);
        assert(bytes@.take(i as int).push(bytes@[i as int]) =~= bytes@.take(i + 1));
        i += 1;
    }
    assert(bytes@.take(bytes.len() as int) =~= bytes@);
}

/// The bytes of `data` from `start` up to `end`.
pub fn copy_range(data: &[u8], start: usize, end: usize) -> (bytes: Vec<u8>)
    requires
        start <= end <= data@.len(),
    ensures
        bytes@ == data@.subrange(start as int, end as int),
{
    let mut bytes: Vec<u8> = Vec::new();
    let mut i: usize = start;
    while i < end
        invariant
            start <= i <= end <= data@.len(),
            bytes@ == data@.subrange(start as int, i as int),
        decreases end - i,
    {
        bytes.push(data[i]);
        assert(data@.subrange(start as int, i as int).push(data@[i as int]) =~= data@.subrange(
            start as int,
            i + 1,
        ));
        i += 1;
    }
    bytes
}

/// Appends a byte string.
pub fn write_blob(out: &mut Vec<u8>, bytes: &[u8])
    ensures
        final(out)@ == old(out)@ + blob(bytes@),
{
    write_varint(out, bytes.len() as u64);
    append(out, bytes);
    assert(out@ =~= old(out)@ + blob(bytes@));
}

/// Reads a byte string.
pub fn read_blob(data: &[u8], pos: usize) -> (parsed: Option<Parsed<Vec<u8>>>)
    ensures
        agrees(parsed, parse_blob(data@, pos as int), |v: Vec<u8>| v@),
        parsed is Some ==> pos < parsed->0.next <= data@.len(),
{
    let len = match read_varint(data, pos, 8) {
        Some(len) => len,
        None => {
            return None;
        },
    };
    if len.value > (data.len() - len.next) as u64 {
        return None;
    }
    let end = len.next + len.value as usize;
    Some(Parsed { value: copy_range(data, len.next, end), next: end })
}

/// `String::from_utf8`: the text that the bytes encode, or `None` where they
/// are not UTF-8.
#[verifier::external_body]
pub(crate) fn string_from_utf8(bytes: Vec<u8>) -> (text: Option<String>)
    ensures
        text is Some == valid_utf8(bytes@),
        text is Some ==> text->0@ == decode_utf8(bytes@),
{
    String::from_utf8(bytes).ok()
}

/// Appends a text.
pub fn write_text(out: &mut Vec<u8>, value: &String)
    ensures
        final(out)@ == old(out)@ + text(value@),
{
    write_blob(out, value.as_str().as_bytes());
}

/// Reads a text.
pub fn read_text(data: &[u8], pos: usize) -> (parsed: Option<Parsed<String>>)
    ensures
        agrees(parsed, parse_text(data@, pos as int), |v: String| v@),
        parsed is Some ==> pos < parsed->0.next <= data@.len(),
{
    let bytes = match read_blob(data, pos) {
        Some(bytes) => bytes,
        None => {
            return None;
        },
    };
    match string_from_utf8(bytes.value) {
        Some(value) => Some(Parsed { value, next: bytes.next }),
        None => None,
    }
}

} // verus!
