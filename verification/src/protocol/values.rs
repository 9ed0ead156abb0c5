//! Typed values and lists on the wire.
//!
//! A typed value is a tag byte, a byte that counts the 32-bit words that
//! follow, and the words, which carry the value's bit pattern most
//! significant byte first. A list is its length and then its items.

use crate::protocol::wire::{
    agrees, be_bytes, be_value, get_be, has_at, lemma_be_len, lemma_be_roundtrip,
    lemma_be_value_bound, lemma_has_at_split, lemma_pow256, lemma_varint_roundtrip, parse_text,
    parse_varint, pow256, put_be, read_text, read_varint, text, varint, write_text, write_varint,
    Parsed, Taken,
};
use crate::protocol::{names_view, Type};
use vstd::prelude::*;

verus! {

/// The bit pattern of a signed value in `width` bytes, two's complement.
pub open spec fn pattern(value: int, width: nat) -> nat {
    if value >= 0 {
        value as nat
    } else {
        (value + pow256(width)) as nat
    }
}

/// The signed value of a bit pattern of `width` bytes, two's complement.
pub open spec fn from_pattern(bits: nat, width: nat) -> int {
    if 2 * bits < pow256(width) {
        bits as int
    } else {
        bits - pow256(width)
    }
}

/// The tag byte of a typed value.
pub open spec fn type_tag(value: Type) -> u8 {
    match value {
        Type::Void => 0,
        Type::I32(_) => 1,
        Type::I64(_) => 2,
        Type::F32(_) => 3,
        Type::F64(_) => 4,
        Type::V128(_) => 5,
    }
}

/// The number of 32-bit words that a value with this tag takes.
pub open spec fn tag_words(tag: u8) -> nat {
    if tag == 0 {
        0
    } else if tag == 1 || tag == 3 {
        1
    } else if tag == 2 || tag == 4 {
        2
    } else {
        4
    }
}

/// The bit pattern of a typed value.
pub open spec fn type_bits(value: Type) -> nat {
    match value {
        Type::Void => 0,
        Type::I32(v) => pattern(v as int, 4),
        Type::I64(v) => pattern(v as int, 8),
        Type::F32(bits) => bits as nat,
        Type::F64(bits) => bits as nat,
        Type::V128(v) => pattern(v as int, 16),
    }
}

/// The typed value with this tag and bit pattern.
pub open spec fn type_from(tag: u8, bits: nat) -> Type {
    if tag == 0 {
        Type::Void
    } else if tag == 1 {
        Type::I32(from_pattern(bits, 4) as i32)
    } else if tag == 2 {
        Type::I64(from_pattern(bits, 8) as i64)
    } else if tag == 3 {
        Type::F32(bits as u32)
    } else if tag == 4 {
        Type::F64(bits as u64)
    } else {
        Type::V128(from_pattern(bits, 16) as i128)
    }
}

/// A typed value on the wire.
pub open spec fn typed(value: Type) -> Seq<u8> {
    let tag = type_tag(value);
    seq![tag, tag_words(tag) as u8] + be_bytes(type_bits(value), 4 * tag_words(tag))
}

/// Reads a typed value at `pos`.
pub open spec fn parse_typed(s: Seq<u8>, pos: int) -> Option<Taken<Type>> {
    if !(0 <= pos && pos + 2 <= s.len()) {
        None
    } else if s[pos] > 5 || s[pos + 1] != tag_words(s[pos]) {
        None
    } else if pos + 2 + 4 * tag_words(s[pos]) > s.len() {
        None
    } else {
        let end = pos + 2 + 4 * tag_words(s[pos]);
        Some(Taken { value: type_from(s[pos], be_value(s.subrange(pos + 2, end))), next: end })
    }
}

/// The items of a list, one after another.
pub open spec fn items<T>(values: Seq<T>, one: spec_fn(T) -> Seq<u8>) -> Seq<u8>
    decreases values.len(),
{
    if values.len() == 0 {
        Seq::empty()
    } else {
        items(values.drop_last(), one) + one(values.last())
    }
}

/// A list: its length, then its items.
pub open spec fn list<T>(values: Seq<T>, one: spec_fn(T) -> Seq<u8>) -> Seq<u8> {
    varint(values.len()) + items(values, one)
}

/// Reads `count` items from `pos` on.
pub open spec fn parse_items<T>(
    s: Seq<u8>,
    pos: int,
    count: nat,
    one: spec_fn(Seq<u8>, int) -> Option<Taken<T>>,
) -> Option<Taken<Seq<T>>>
    decreases count,
{
    if count == 0 {
        Some(Taken { value: Seq::empty(), next: pos })
    } else {
        match parse_items(s, pos, (count - 1) as nat, one) {
            None => None,
            Some(front) => match one(s, front.next) {
                None => None,
                Some(last) => Some(
                    Taken { value: front.value.push(last.value), next: last.next },
                ),
            },
        }
    }
}

/// Reads a list at `pos`.
pub open spec fn parse_list<T>(
    s: Seq<u8>,
    pos: int,
    one: spec_fn(Seq<u8>, int) -> Option<Taken<T>>,
) -> Option<Taken<Seq<T>>> {
    match parse_varint(s, pos, 8) {
        None => None,
        Some(count) => parse_items(s, count.next, count.value, one),
    }
}

/// A list of names on the wire.
pub open spec fn name_list(names: Seq<Seq<char>>) -> Seq<u8> {
    list(names, |name: Seq<char>| text(name))
}

/// Reads a list of names at `pos`.
pub open spec fn parse_name_list(s: Seq<u8>, pos: int) -> Option<Taken<Seq<Seq<char>>>> {
    parse_list(s, pos, |s: Seq<u8>, pos: int| parse_text(s, pos))
}

/// A list of typed values on the wire.
pub open spec fn type_list(values: Seq<Type>) -> Seq<u8> {
    list(values, |value: Type| typed(value))
}

/// Reads a list of typed values at `pos`.
pub open spec fn parse_type_list(s: Seq<u8>, pos: int) -> Option<Taken<Seq<Type>>> {
    parse_list(s, pos, |s: Seq<u8>, pos: int| parse_typed(s, pos))
}

/// A bit pattern is read back as the value it was made from.
pub proof fn lemma_pattern_roundtrip(value: int, width: nat)
    requires
        -(pow256(width) as int) <= 2 * value < pow256(width),
    ensures
        pattern(value, width) < pow256(width),
        from_pattern(pattern(value, width), width) == value,
{
}

/// A typed value is read back.
pub proof fn lemma_typed_roundtrip(s: Seq<u8>, pos: int, value: Type)
    requires
        has_at(s, pos, typed(value)),
    ensures
        parse_typed(s, pos) == Some(Taken { value, next: pos + typed(value).len() }),
{
    lemma_pow256();
    let tag = type_tag(value);
    let words = tag_words(tag);
    let bits = type_bits(value);
    lemma_be_len(bits, 4 * words);
    lemma_has_at_split(s, pos, seq![tag, words as u8], be_bytes(bits, 4 * words));
    let head = s.subrange(pos, pos + 2);
    assert(s[pos] == head[0]);
    assert(s[pos + 1] == head[1]);
    match value {
        Type::Void => {},
        Type::I32(v) => {
            lemma_pattern_roundtrip(v as int, 4);
        },
        Type::I64(v) => {
            lemma_pattern_roundtrip(v as int, 8);
        },
        Type::F32(_) => {},
        Type::F64(_) => {},
        Type::V128(v) => {
            lemma_pattern_roundtrip(v as int, 16);
        },
    }
    lemma_be_roundtrip(bits, 4 * words);
}

/// Where fewer items cannot be read, more cannot either.
pub proof fn lemma_items_stop<T>(
    s: Seq<u8>,
    pos: int,
    few: nat,
    many: nat,
    one: spec_fn(Seq<u8>, int) -> Option<Taken<T>>,
)
    requires
        few <= many,
        parse_items(s, pos, few, one) is None,
    ensures
        parse_items(s, pos, many, one) is None,
    decreases many,
{
    if few < many {
        lemma_items_stop(s, pos, few, (many - 1) as nat, one);
    }
}

/// Items are read back, where each of them is.
pub proof fn lemma_items_roundtrip<T>(
    s: Seq<u8>,
    pos: int,
    values: Seq<T>,
    one: spec_fn(T) -> Seq<u8>,
    parse_one: spec_fn(Seq<u8>, int) -> Option<Taken<T>>,
)
    requires
        has_at(s, pos, items(values, one)),
        forall|p: int, k: int|
            0 <= k < values.len() && has_at(s, p, #[trigger] one(values[k])) ==> #[trigger] parse_one(
                s,
                p,
            ) == Some(Taken { value: values[k], next: p + one(values[k]).len() }),
    ensures
        parse_items(s, pos, values.len(), parse_one) == Some(
            Taken { value: values, next: pos + items(values, one).len() },
        ),
    decreases values.len(),
{
    if values.len() > 0 {
        let front = values.drop_last();
        lemma_has_at_split(s, pos, items(front, one), one(values.last()));
        assert forall|p: int, k: int|
            0 <= k < front.len() && has_at(s, p, #[trigger] one(front[k])) implies #[trigger] parse_one(
            s,
            p,
        ) == Some(Taken { value: front[k], next: p + one(front[k]).len() }) by {
            assert(front[k] == values[k]);
        }
        lemma_items_roundtrip(s, pos, front, one, parse_one);
        assert(values[values.len() - 1] == values.last());
        assert(front.push(values.last()) =~= values);
    } else {
        assert(values =~= Seq::<T>::empty());
    }
}

/// A list is at least as long in bytes as in items, where no item is empty.
pub proof fn lemma_items_count<T>(values: Seq<T>, one: spec_fn(T) -> Seq<u8>)
    requires
        forall|k: int| 0 <= k < values.len() ==> (#[trigger] one(values[k])).len() >= 1,
    ensures
        items(values, one).len() >= values.len(),
    decreases values.len(),
{
    if values.len() > 0 {
        let front = values.drop_last();
        assert forall|k: int| 0 <= k < front.len() implies (#[trigger] one(front[k])).len() >= 1 by {
            assert(front[k] == values[k]);
        }
        lemma_items_count(front, one);
        assert(values[values.len() - 1] == values.last());
    }
}

/// A list of names is read back.
pub proof fn lemma_name_list_roundtrip(s: Seq<u8>, pos: int, names: Seq<Seq<char>>)
    requires
        has_at(s, pos, name_list(names)),
        s.len() <= u64::MAX,
    ensures
        parse_name_list(s, pos) == Some(
            Taken { value: names, next: pos + name_list(names).len() },
        ),
{
    lemma_pow256();
    let one = |name: Seq<char>| text(name);
    let parse_one = |s: Seq<u8>, pos: int| parse_text(s, pos);
    lemma_items_count(names, one);
    lemma_has_at_split(s, pos, varint(names.len()), items(names, one));
    lemma_varint_roundtrip(s, pos, names.len(), 8);
    let start = pos + varint(names.len()).len();
    assert forall|p: int, k: int|
        0 <= k < names.len() && has_at(s, p, #[trigger] one(names[k])) implies #[trigger] parse_one(
        s,
        p,
    ) == Some(Taken { value: names[k], next: p + one(names[k]).len() }) by {
        crate::protocol::wire::lemma_text_roundtrip(s, p, names[k]);
    }
    lemma_items_roundtrip(s, start, names, one, parse_one);
}

/// A list of typed values is read back.
pub proof fn lemma_type_list_roundtrip(s: Seq<u8>, pos: int, values: Seq<Type>)
    requires
        has_at(s, pos, type_list(values)),
        s.len() <= u64::MAX,
    ensures
        parse_type_list(s, pos) == Some(
            Taken { value: values, next: pos + type_list(values).len() },
        ),
{
    lemma_pow256();
    let one = |value: Type| typed(value);
    let parse_one = |s: Seq<u8>, pos: int| parse_typed(s, pos);
    lemma_items_count(values, one);
    lemma_has_at_split(s, pos, varint(values.len()), items(values, one));
    lemma_varint_roundtrip(s, pos, values.len(), 8);
    let start = pos + varint(values.len()).len();
    assert forall|p: int, k: int|
        0 <= k < values.len() && has_at(s, p, #[trigger] one(values[k])) implies #[trigger] parse_one(
        s,
        p,
    ) == Some(Taken { value: values[k], next: p + one(values[k]).len() }) by {
        lemma_typed_roundtrip(s, p, values[k]);
    }
    lemma_items_roundtrip(s, start, values, one, parse_one);
}

/// The bit pattern of a 32-bit signed value.
pub fn bits_of_i32(value: i32) -> (bits: u32)
    ensures
        bits == pattern(value as int, 4),
{
    proof {
        lemma_pow256();
    }
    if value >= 0 {
        value as u32
    } else {
        (value - i32::MIN) as u32 + 0x8000_0000
    }
}

/// The bit pattern of a 64-bit signed value.
pub fn bits_of_i64(value: i64) -> (bits: u64)
    ensures
        bits == pattern(value as int, 8),
{
    proof {
        lemma_pow256();
    }
    if value >= 0 {
        value as u64
    } else {
        (value - i64::MIN) as u64 + 0x8000_0000_0000_0000
    }
}

/// The bit pattern of a 128-bit signed value.
pub fn bits_of_i128(value: i128) -> (bits: u128)
    ensures
        bits == pattern(value as int, 16),
{
    proof {
        lemma_pow256();
    }
    if value >= 0 {
        value as u128
    } else {
        (value - i128::MIN) as u128 + 0x8000_0000_0000_0000_0000_0000_0000_0000
    }
}

/// The 32-bit signed value of a bit pattern.
pub fn i32_of_bits(bits: u32) -> (value: i32)
    ensures
        value == from_pattern(bits as nat, 4),
{
    proof {
        lemma_pow256();
    }
    if bits < 0x8000_0000 {
        bits as i32
    } else {
        (bits - 0x8000_0000) as i32 + i32::MIN
    }
}

/// The 64-bit signed value of a bit pattern.
pub fn i64_of_bits(bits: u64) -> (value: i64)
    ensures
        value == from_pattern(bits as nat, 8),
{
    proof {
        lemma_pow256();
    }
    if bits < 0x8000_0000_0000_0000 {
        bits as i64
    } else {
        (bits - 0x8000_0000_0000_0000) as i64 + i64::MIN
    }
}

/// The 128-bit signed value of a bit pattern.
pub fn i128_of_bits(bits: u128) -> (value: i128)
    ensures
        value == from_pattern(bits as nat, 16),
{
    proof {
        lemma_pow256();
    }
    if bits < 0x8000_0000_0000_0000_0000_0000_0000_0000 {
        bits as i128
    } else {
        (bits - 0x8000_0000_0000_0000_0000_0000_0000_0000) as i128 + i128::MIN
    }
}

/// Appends a typed value.
pub fn write_typed(out: &mut Vec<u8>, value: &Type)
    ensures
        final(out)@ == old(out)@ + typed(*value),
{
    match value {
        Type::Void => {
            out.push(0);
            out.push(0);
        },
        Type::I32(v) => {
            out.push(1);
            out.push(1);
            put_be(out, bits_of_i32(*v) as u128, 4);
        },
        Type::I64(v) => {
            out.push(2);
            out.push(2);
            put_be(out, bits_of_i64(*v) as u128, 8);
        },
        Type::F32(bits) => {
            out.push(3);
            out.push(1);
            put_be(out, *bits as u128, 4);
        },
        Type::F64(bits) => {
            out.push(4);
            out.push(2);
            put_be(out, *bits as u128, 8);
        },
        Type::V128(v) => {
            out.push(5);
            out.push(4);
            put_be(out, bits_of_i128(*v), 16);
        },
    }
    assert(out@ =~= old(out)@ + typed(*value));
}

/// Reads a typed value.
pub fn read_typed(data: &[u8], pos: usize) -> (parsed: Option<Parsed<Type>>)
    ensures
        agrees(parsed, parse_typed(data@, pos as int), |v: Type| v),
        parsed is Some ==> pos < parsed->0.next <= data@.len(),
{
    let len = data.len();
    if pos >= len || len - pos < 2 {
        return None;
    }
    let tag = data[pos];
    let count = data[pos + 1];
    let words: usize = if tag == 0 {
        0
    } else if tag == 1 || tag == 3 {
        1
    } else if tag == 2 || tag == 4 {
        2
    } else {
        4
    };
    if tag > 5 || count as usize != words || len - pos - 2 < 4 * words {
        return None;
    }
    let end = pos + 2 + 4 * words;
    let bits = get_be(data, pos + 2, 4 * words);
    proof {
        lemma_pow256();
        lemma_be_value_bound(data@.subrange(pos + 2, end as int));
    }
    let value = if tag == 0 {
        Type::Void
    } else if tag == 1 {
        Type::I32(i32_of_bits(bits as u32))
    } else if tag == 2 {
        Type::I64(i64_of_bits(bits as u64))
    } else if tag == 3 {
        Type::F32(bits as u32)
    } else if tag == 4 {
        Type::F64(bits as u64)
    } else {
        Type::V128(i128_of_bits(bits))
    };
    Some(Parsed { value, next: end })
}

/// Appends a list of names.
pub fn write_names(out: &mut Vec<u8>, names: &Vec<String>)
    ensures
        final(out)@ == old(out)@ + name_list(names_view(names@)),
{
    let ghost one = |name: Seq<char>| text(name);
    let ghost all = names_view(names@);
    write_varint(out, names.len() as u64);
    let ghost start = out@;
    let mut i: usize = 0;
    assert(out@ =~= start + items(all.take(0), one));
    while i < names.len()
        invariant
            i <= names.len(),
            all == names_view(names@),
            forall|name: Seq<char>| #[trigger] one(name) == text(name),
            out@ == start + items(all.take(i as int), one),
        decreases names.len() - i,
    {
        write_text(out, &names[i]);
        proof {
            assert(all.take(i + 1).drop_last() =~= all.take(i as int));
            assert(all.take(i + 1).last() == names@[i as int]@);
            assert(out@ =~= start + items(all.take(i + 1), one));
        }
        i += 1;
    }
    proof {
        assert(all.take(names.len() as int) =~= all);
        assert(out@ =~= old(out)@ + name_list(all));
    }
}

/// Reads a list of names.
pub fn read_names(data: &[u8], pos: usize) -> (parsed: Option<Parsed<Vec<String>>>)
    ensures
        agrees(parsed, parse_name_list(data@, pos as int), |v: Vec<String>| names_view(v@)),
        parsed is Some ==> pos < parsed->0.next <= data@.len(),
{
    let ghost one = |s: Seq<u8>, pos: int| parse_text(s, pos);
    let count = match read_varint(data, pos, 8) {
        Some(count) => count,
        None => {
            return None;
        },
    };
    let mut names: Vec<String> = Vec::new();
    let mut next = count.next;
    let mut i: u64 = 0;
    assert(names_view(names@) =~= Seq::<Seq<char>>::empty());
    while i < count.value
        invariant
            i <= count.value,
            pos < next <= data@.len(),
            forall|s: Seq<u8>, p: int| #[trigger] one(s, p) == parse_text(s, p),
            parse_varint(data@, pos as int, 8) == Some(
                Taken { value: count.value as nat, next: count.next as int },
            ),
            parse_items(data@, count.next as int, i as nat, one) == Some(
                Taken { value: names_view(names@), next: next as int },
            ),
        decreases count.value - i,
    {
        match read_text(data, next) {
            Some(name) => {
                let ghost before = names@;
                next = name.next;
                names.push(name.value);
                assert(names_view(names@) =~= names_view(before).push(name.value@));
            },
            None => {
                proof {
                    assert(parse_items(data@, count.next as int, (i + 1) as nat, one) is None);
                    lemma_items_stop(
                        data@,
                        count.next as int,
                        (i + 1) as nat,
                        count.value as nat,
                        one,
                    );
                    assert(one =~= (|s: Seq<u8>, pos: int| parse_text(s, pos)));
                }
                return None;
            },
        }
        i += 1;
    }
    Some(Parsed { value: names, next })
}

/// Appends a list of typed values.
pub fn write_types(out: &mut Vec<u8>, values: &Vec<Type>)
    ensures
        final(out)@ == old(out)@ + type_list(values@),
{
    let ghost one = |value: Type| typed(value);
    write_varint(out, values.len() as u64);
    let ghost start = out@;
    let mut i: usize = 0;
    assert(out@ =~= start + items(values@.take(0), one));
    while i < values.len()
        invariant
            i <= values.len(),
            forall|value: Type| #[trigger] one(value) == typed(value),
            out@ == start + items(values@.take(i as int), one),
        decreases values.len() - i,
    {
        write_typed(out, &values[i]);
        proof {
            assert(values@.take(i + 1).drop_last() =~= values@.take(i as int));
            assert(values@.take(i + 1).last() == values@[i as int]);
            assert(out@ =~= start + items(values@.take(i + 1), one));
        }
        i += 1;
    }
    proof {
        assert(values@.take(values.len() as int) =~= values@);
        assert(out@ =~= old(out)@ + type_list(values@));
    }
}

/// Reads a list of typed values.
pub fn read_types(data: &[u8], pos: usize) -> (parsed: Option<Parsed<Vec<Type>>>)
    ensures
        agrees(parsed, parse_type_list(data@, pos as int), |v: Vec<Type>| v@),
        parsed is Some ==> pos < parsed->0.next <= data@.len(),
{
    let ghost one = |s: Seq<u8>, pos: int| parse_typed(s, pos);
    let count = match read_varint(data, pos, 8) {
        Some(count) => count,
        None => {
            return None;
        },
    };
    let mut values: Vec<Type> = Vec::new();
    let mut next = count.next;
    let mut i: u64 = 0;
    while i < count.value
        invariant
            i <= count.value,
            pos < next <= data@.len(),
            forall|s: Seq<u8>, p: int| #[trigger] one(s, p) == parse_typed(s, p),
            parse_varint(data@, pos as int, 8) == Some(
                Taken { value: count.value as nat, next: count.next as int },
            ),
            parse_items(data@, count.next as int, i as nat, one) == Some(
                Taken { value: values@, next: next as int },
            ),
        decreases count.value - i,
    {
        match read_typed(data, next) {
            Some(value) => {
                next = value.next;
                values.push(value.value);
            },
            None => {
                proof {
                    assert(parse_items(data@, count.next as int, (i + 1) as nat, one) is None);
                    lemma_items_stop(
                        data@,
                        count.next as int,
                        (i + 1) as nat,
                        count.value as nat,
                        one,
                    );
                    assert(one =~= (|s: Seq<u8>, pos: int| parse_typed(s, pos)));
                }
                return None;
            },
        }
        i += 1;
    }
    Some(Parsed { value: values, next })
}

} // verus!
