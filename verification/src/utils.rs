//! The byte layout of values: every value is written as one byte that gives
//! the width of what follows, then its payload, least significant byte first.

use crate::types::{
    cells_of, lemma_array_value, well_typed, Cell, SafeType, TypeDefs, Types, Value,
};
use vstd::slice::{slice_subrange, slice_to_vec};
use vstd::bytes::*;
use vstd::prelude::*;
use vstd::string::*;
use vstd::utf8::*;

verus! {

/// A value's payload with the width that is written in front of it.
#[derive(Debug)]
pub struct RawType {
    /// The width byte: 8 for text and arrays, whose payload starts with an
    /// 8-byte length, and the payload's length for every other kind.
    pub type_size: usize,
    /// The payload.
    pub type_data: Vec<u8>,
}

/// The width byte written in front of the payload of `v`.
pub open spec fn width(v: Value) -> u8 {
    match v {
        Value::String(_) => 8,
        Value::Char(_) => 4,
        Value::I8(_) => 1,
        Value::I64(_) => 8,
        Value::U64(_) => 8,
        Value::Bool(_) => 1,
        Value::F32(_) => 4,
        Value::F64(_) => 8,
        Value::Array(_) => 8,
    }
}

/// The payload of `v`: for text its length in bytes as 8 bytes and then its
/// UTF-8 bytes, for an array the number of its items as 8 bytes and then
/// each item with its width byte, for any other kind the value itself.
pub open spec fn payload(v: Value) -> Seq<u8>
    decreases v, 0nat,
{
    match v {
        Value::String(s) => spec_u64_to_le_bytes(encode_utf8(s).len() as u64) + encode_utf8(s),
        Value::Char(c) => spec_u32_to_le_bytes(c as u32),
        Value::I8(n) => seq![n as u8],
        Value::I64(n) => spec_u64_to_le_bytes(n as u64),
        Value::U64(n) => spec_u64_to_le_bytes(n),
        Value::Bool(b) => seq![if b { 1u8 } else { 0u8 }],
        Value::F32(n) => spec_u32_to_le_bytes(n),
        Value::F64(n) => spec_u64_to_le_bytes(n),
        Value::Array(items) => spec_u64_to_le_bytes(items.len() as u64) + framed_upto(
            items,
            items.len(),
        ),
    }
}

/// The first `n` items of `items`, each written with its width byte, one
/// after the other.
pub open spec fn framed_upto(items: Seq<Cell>, n: nat) -> Seq<u8>
    decreases items, n,
{
    if n == 0 || n > items.len() {
        Seq::empty()
    } else {
        framed_upto(items, (n - 1) as nat) + seq![width(items[n - 1].value)] + payload(
            items[n - 1].value,
        )
    }
}

/// `v` as it is written: its width byte, then its payload.
pub open spec fn framed(v: Value) -> Seq<u8> {
    seq![width(v)] + payload(v)
}

/// Whether every length inside `v` can be written in 8 bytes.
pub open spec fn storable(v: Value) -> bool
    decreases v,
{
    match v {
        Value::String(s) => encode_utf8(s).len() <= u64::MAX,
        Value::Array(items) => items.len() <= u64::MAX && forall|i: int|
            0 <= i < items.len() ==> storable(#[trigger] items[i].value),
        _ => true,
    }
}

/// Appends the width byte of `raw_type` and then its payload to `bytes`.
pub fn extend_bytes_from_raw_type(bytes: &mut Vec<u8>, raw_type: &RawType)
    ensures
        final(bytes)@ == old(bytes)@ + seq![raw_type.type_size as u8] + raw_type.type_data@,
{
    bytes.push(#[verifier::truncate] (raw_type.type_size as u8));
    bytes.extend_from_slice(raw_type.type_data.as_slice());
}

/// The width byte and the payload of `value`.
pub fn type_to_bytes(value: &Types) -> (res: RawType)
    ensures
        res.type_size == width(value@),
        res.type_data@ == payload(value@),
        storable(value@),
    decreases *value,
{
    match value {
        Types::String(s) => {
            let text = s.as_str().as_bytes();
            let mut data = u64_to_le_bytes(text.len() as u64);
            data.extend_from_slice(text);
            RawType { type_size: 8, type_data: data }
        },
        Types::Char(c) => RawType { type_size: 4, type_data: u32_to_le_bytes(*c as u32) },
        Types::I8(n) => {
            let mut data: Vec<u8> = Vec::new();
            data.push(#[verifier::truncate] (*n as u8));
            RawType { type_size: 1, type_data: data }
        },
        Types::I64(n) => RawType {
            type_size: 8,
            type_data: u64_to_le_bytes(#[verifier::truncate] (*n as u64)),
        },
        Types::U64(n) => RawType { type_size: 8, type_data: u64_to_le_bytes(*n) },
        Types::Bool(b) => {
            let mut data: Vec<u8> = Vec::new();
            data.push(if *b { 1 } else { 0 });
            RawType { type_size: 1, type_data: data }
        },
        Types::F32(n) => RawType { type_size: 4, type_data: u32_to_le_bytes(*n) },
        Types::F64(n) => RawType { type_size: 8, type_data: u64_to_le_bytes(*n) },
        Types::Array(v) => {
            proof {
                lemma_array_value(*v);
            }
            let ghost items = cells_of(v@);
            let mut data = u64_to_le_bytes(v.len() as u64);
            let ghost head = data@;
            let mut i: usize = 0;
            while i < v.len()
                invariant
                    i <= v.len(),
                    decreases_to!(*value => *v),
                    items == cells_of(v@),
                    data@ == head + framed_upto(items, i as nat),
                    forall|j: int| 0 <= j < i ==> storable(#[trigger] items[j].value),
                decreases v.len() - i,
            {
                assert(decreases_to!(*v => v[i as int]));
                let raw = type_to_bytes(&v[i].rtype);
                assert(items[i as int].value == v[i as int].rtype@);
                extend_bytes_from_raw_type(&mut data, &raw);
                assert(data@ =~= head + framed_upto(items, (i + 1) as nat));
                i = i + 1;
            }
            RawType { type_size: 8, type_data: data }
        },
    }
}

/// `n` zero bytes.
pub open spec fn zeros(n: int) -> Seq<u8> {
    Seq::new(n as nat, |i: int| 0u8)
}

/// The number that the `k` bytes of `b` from `at` on give, least significant
/// byte first; `k` is at most 8.
pub open spec fn length_at(b: Seq<u8>, at: int, k: int) -> u64 {
    spec_u64_from_le_bytes(b.subrange(at, at + k) + zeros(8 - k))
}

/// The value of type `t` that is written in `b` from `at` on, with the place
/// where it ends; nothing where `b` ends too early or holds what no value of
/// that type is written as. The width byte in front of text is read, and may
/// be at most 8; in front of any other kind it is passed over.
pub open spec fn parse_cell(b: Seq<u8>, at: int, t: TypeDefs) -> Option<(Cell, int)>
    decreases t, 0nat,
{
    if at < 0 || at + 1 > b.len() {
        None
    } else {
        match t {
            TypeDefs::String => {
                let k = b[at] as int;
                if k > 8 || at + 1 + k > b.len() {
                    None
                } else {
                    let start = at + 1 + k;
                    let end = start + length_at(b, at + 1, k);
                    if end > b.len() || !valid_utf8(b.subrange(start, end)) {
                        None
                    } else {
                        Some(
                            (
                                Cell {
                                    type_id: t,
                                    value: Value::String(decode_utf8(b.subrange(start, end))),
                                },
                                end,
                            ),
                        )
                    }
                }
            },
            TypeDefs::Char => {
                let code = spec_u32_from_le_bytes(b.subrange(at + 1, at + 5));
                if at + 5 > b.len() || !is_scalar(code) {
                    None
                } else {
                    Some((Cell { type_id: t, value: Value::Char(code as char) }, at + 5))
                }
            },
            TypeDefs::I8 => if at + 2 > b.len() {
                None
            } else {
                Some((Cell { type_id: t, value: Value::I8(b[at + 1] as i8) }, at + 2))
            },
            TypeDefs::I64 => if at + 9 > b.len() {
                None
            } else {
                Some(
                    (
                        Cell {
                            type_id: t,
                            value: Value::I64(
                                spec_u64_from_le_bytes(b.subrange(at + 1, at + 9)) as i64,
                            ),
                        },
                        at + 9,
                    ),
                )
            },
            TypeDefs::U64 => if at + 9 > b.len() {
                None
            } else {
                Some(
                    (
                        Cell {
                            type_id: t,
                            value: Value::U64(spec_u64_from_le_bytes(b.subrange(at + 1, at + 9))),
                        },
                        at + 9,
                    ),
                )
            },
            TypeDefs::Bool => if at + 2 > b.len() {
                None
            } else {
                Some((Cell { type_id: t, value: Value::Bool(b[at + 1] == 1) }, at + 2))
            },
            TypeDefs::F32 => if at + 5 > b.len() {
                None
            } else {
                Some(
                    (
                        Cell {
                            type_id: t,
                            value: Value::F32(spec_u32_from_le_bytes(b.subrange(at + 1, at + 5))),
                        },
                        at + 5,
                    ),
                )
            },
            TypeDefs::F64 => if at + 9 > b.len() {
                None
            } else {
                Some(
                    (
                        Cell {
                            type_id: t,
                            value: Value::F64(spec_u64_from_le_bytes(b.subrange(at + 1, at + 9))),
                        },
                        at + 9,
                    ),
                )
            },
            TypeDefs::Array(inner) => if at + 9 > b.len() {
                None
            } else {
                match parse_upto(
                    b,
                    at + 9,
                    *inner,
                    spec_u64_from_le_bytes(b.subrange(at + 1, at + 9)) as nat,
                ) {
                    Some((items, end)) => Some(
                        (Cell { type_id: t, value: Value::Array(items) }, end),
                    ),
                    None => None,
                }
            },
        }
    }
}

/// The `n` values of type `t` that are written in `b` one after the other
/// from `at` on, with the place where the last one ends.
pub open spec fn parse_upto(b: Seq<u8>, at: int, t: TypeDefs, n: nat) -> Option<(Seq<Cell>, int)>
    decreases t, n,
{
    if n == 0 {
        Some((Seq::empty(), at))
    } else {
        match parse_upto(b, at, t, (n - 1) as nat) {
            Some((items, mid)) => match parse_cell(b, mid, t) {
                Some((item, end)) => Some((items.push(item), end)),
                None => None,
            },
            None => None,
        }
    }
}

/// Where the first of a run of values cannot be read, no longer run can.
pub proof fn lemma_parse_upto_fails(b: Seq<u8>, at: int, t: TypeDefs, n: nat, m: nat)
    requires
        parse_upto(b, at, t, n) is None,
        n <= m,
    ensures
        parse_upto(b, at, t, m) is None,
    decreases m,
{
    if n < m {
        lemma_parse_upto_fails(b, at, t, n, (m - 1) as nat);
    }
}

/// The character with the given code, through `char::from_u32` of std,
/// which gives one for every Unicode scalar value and for no other number.
#[verifier::external_body]
fn char_of_code(code: u32) -> (res: Option<char>)
    ensures
        res == if is_scalar(code) {
            Some(code as char)
        } else {
            None::<char>
        },
{
    char::from_u32(code)
}

/// The text that `bytes` encode, through `String::from_utf8` of std, which
/// gives the text for every valid UTF-8 encoding and fails on anything else.
#[verifier::external_body]
fn text_of_bytes(bytes: Vec<u8>) -> (res: Option<String>)
    ensures
        match res {
            Some(text) => valid_utf8(bytes@) && text@ == decode_utf8(bytes@),
            None => !valid_utf8(bytes@),
        },
{
    match String::from_utf8(bytes) {
        Ok(text) => Some(text),
        Err(_) => None,
    }
}

/// The byte at `at`, if `data` reaches that far.
pub fn read_one(data: &[u8], at: usize) -> (res: Option<u8>)
    ensures
        res == if at < data.len() {
            Some(data@[at as int])
        } else {
            None::<u8>
        },
{
    if at < data.len() {
        Some(data[at])
    } else {
        None
    }
}

/// The number that the `k` bytes of `data` from `at` on give.
fn read_length(data: &[u8], at: usize, k: usize) -> (res: u64)
    requires
        k <= 8,
        at + k <= data.len(),
    ensures
        res == length_at(data@, at as int, k as int),
{
    let mut buffer = slice_to_vec(slice_subrange(data, at, at + k));
    let ghost head = buffer@;
    let mut i: usize = k;
    while i < 8
        invariant
            k <= i <= 8,
            buffer@ == head + zeros(i - k),
        decreases 8 - i,
    {
        buffer.push(0);
        i = i + 1;
        assert(buffer@ =~= head + zeros(i - k));
    }
    u64_from_le_bytes(buffer.as_slice())
}

/// Reads the value of type `rtype` that is written in `data` from `at` on,
/// and gives it with the place where it ends.
pub fn read_data(data: &[u8], at: usize, rtype: &TypeDefs) -> (res: Option<(SafeType, usize)>)
    ensures
        match res {
            Some((value, end)) => parse_cell(data@, at as int, *rtype) == Some(
                (value@, end as int),
            ),
            None => parse_cell(data@, at as int, *rtype) is None,
        },
    decreases *rtype,
{
    let len = data.len();
    if at >= len {
        return None;
    }
    let room = len - at;
    match rtype {
        TypeDefs::String => {
            let k = data[at] as usize;
            if k > 8 || room - 1 < k {
                return None;
            }
            let start = at + 1 + k;
            let n = read_length(data, at + 1, k);
            if n > (len - start) as u64 {
                return None;
            }
            let end = start + n as usize;
            match text_of_bytes(slice_to_vec(slice_subrange(data, start, end))) {
                Some(text) => Some(
                    (SafeType { type_id: TypeDefs::String, rtype: Types::String(text) }, end),
                ),
                None => None,
            }
        },
        TypeDefs::Char => {
            if room < 5 {
                return None;
            }
            match char_of_code(u32_from_le_bytes(slice_subrange(data, at + 1, at + 5))) {
                Some(c) => Some(
                    (SafeType { type_id: TypeDefs::Char, rtype: Types::Char(c) }, at + 5),
                ),
                None => None,
            }
        },
        TypeDefs::I8 => {
            if room < 2 {
                return None;
            }
            let n = #[verifier::truncate] (data[at + 1] as i8);
            Some((SafeType { type_id: TypeDefs::I8, rtype: Types::I8(n) }, at + 2))
        },
        TypeDefs::I64 => {
            if room < 9 {
                return None;
            }
            let bits = u64_from_le_bytes(slice_subrange(data, at + 1, at + 9));
            let n = #[verifier::truncate] (bits as i64);
            Some((SafeType { type_id: TypeDefs::I64, rtype: Types::I64(n) }, at + 9))
        },
        TypeDefs::U64 => {
            if room < 9 {
                return None;
            }
            let n = u64_from_le_bytes(slice_subrange(data, at + 1, at + 9));
            Some((SafeType { type_id: TypeDefs::U64, rtype: Types::U64(n) }, at + 9))
        },
        TypeDefs::Bool => {
            if room < 2 {
                return None;
            }
            let b = data[at + 1] == 1;
            Some((SafeType { type_id: TypeDefs::Bool, rtype: Types::Bool(b) }, at + 2))
        },
        TypeDefs::F32 => {
            if room < 5 {
                return None;
            }
            let n = u32_from_le_bytes(slice_subrange(data, at + 1, at + 5));
            Some((SafeType { type_id: TypeDefs::F32, rtype: Types::F32(n) }, at + 5))
        },
        TypeDefs::F64 => {
            if room < 9 {
                return None;
            }
            let n = u64_from_le_bytes(slice_subrange(data, at + 1, at + 9));
            Some((SafeType { type_id: TypeDefs::F64, rtype: Types::F64(n) }, at + 9))
        },
        TypeDefs::Array(inner) => {
            if room < 9 {
                return None;
            }
            let count = u64_from_le_bytes(slice_subrange(data, at + 1, at + 9));
            let mut items: Vec<SafeType> = Vec::new();
            let mut cur: usize = at + 9;
            let mut i: u64 = 0;
            assert(cells_of(items@) =~= Seq::<Cell>::empty());
            while i < count
                invariant
                    i <= count,
                    decreases_to!(*rtype => **inner),
                    *rtype == TypeDefs::Array(*inner),
                    at + 9 <= data@.len(),
                    count == spec_u64_from_le_bytes(data@.subrange(at + 1, at + 9)),
                    parse_upto(data@, at + 9, **inner, i as nat) == Some(
                        (cells_of(items@), cur as int),
                    ),
                decreases count - i,
            {
                match read_data(data, cur, inner) {
                    Some((item, end)) => {
                        assert(cells_of(items@).push(item@) =~= cells_of(items@.push(item)));
                        items.push(item);
                        cur = end;
                    },
                    None => {
                        proof {
                            lemma_parse_upto_fails(
                                data@,
                                at + 9,
                                **inner,
                                (i + 1) as nat,
                                count as nat,
                            );
                        }
                        return None;
                    },
                }
                i = i + 1;
            }
            proof {
                lemma_array_value(items);
            }
            Some((SafeType { type_id: rtype.clone(), rtype: Types::Array(items) }, cur))
        },
    }
}

/// Whether `part` stands in `b` from `at` on.
pub open spec fn holds(b: Seq<u8>, at: int, part: Seq<u8>) -> bool {
    0 <= at && at + part.len() <= b.len() && b.subrange(at, at + part.len()) == part
}

/// Where two parts stand one after the other, each of them stands there.
pub proof fn lemma_holds_split(b: Seq<u8>, at: int, x: Seq<u8>, y: Seq<u8>)
    requires
        holds(b, at, x + y),
    ensures
        holds(b, at, x),
        holds(b, at + x.len(), y),
{
    let whole = b.subrange(at, at + (x + y).len());
    assert(b.subrange(at, at + x.len()) =~= whole.subrange(0, x.len() as int));
    assert(x =~= (x + y).subrange(0, x.len() as int));
    assert(b.subrange(at + x.len(), at + x.len() + y.len()) =~= whole.subrange(
        x.len() as int,
        (x + y).len() as int,
    ));
    assert(y =~= (x + y).subrange(x.len() as int, (x + y).len() as int));
}

/// Reading gives back what was written: where a storable value of type `t`
/// stands written in `b` at `at`, reading a value of type `t` there gives
/// that value and the place where its bytes end.
pub proof fn lemma_parse_framed(b: Seq<u8>, at: int, c: Cell, t: TypeDefs)
    requires
        holds(b, at, framed(c.value)),
        well_typed(c, t),
        storable(c.value),
    ensures
        parse_cell(b, at, t) == Some((c, at + framed(c.value).len())),
    decreases t, 0nat,
{
    lemma_auto_spec_u64_to_from_le_bytes();
    lemma_auto_spec_u32_to_from_le_bytes();
    let body = payload(c.value);
    lemma_holds_split(b, at, seq![width(c.value)], body);
    assert(b[at] == b.subrange(at, at + 1)[0]);
    match c.value {
        Value::String(s) => {
            let text = encode_utf8(s);
            let size = spec_u64_to_le_bytes(text.len() as u64);
            lemma_holds_split(b, at + 1, size, text);
            assert(b.subrange(at + 1, at + 9) + zeros(0) =~= size);
            encode_utf8_valid_utf8(s);
            encode_utf8_decode_utf8(s);
        },
        Value::Char(ch) => {
            char_is_scalar(ch);
            char_u32_cast(ch, ch as u32);
        },
        Value::I8(n) => {
            assert(b[at + 1] == b.subrange(at + 1, at + 2)[0]);
            assert((n as u8) as i8 == n) by (bit_vector);
        },
        Value::I64(n) => {
            assert((n as u64) as i64 == n) by (bit_vector);
        },
        Value::U64(n) => {},
        Value::Bool(flag) => {
            assert(b[at + 1] == b.subrange(at + 1, at + 2)[0]);
        },
        Value::F32(n) => {},
        Value::F64(n) => {},
        Value::Array(items) => {
            let inner = t->Array_0;
            let size = spec_u64_to_le_bytes(items.len() as u64);
            let rest = framed_upto(items, items.len());
            lemma_holds_split(b, at + 1, size, rest);
            lemma_parse_framed_upto(b, at + 9, items, *inner, items.len());
            assert(items.take(items.len() as int) =~= items);
        },
    }
}

/// Reading gives back what was written, for a run of values of one type.
pub proof fn lemma_parse_framed_upto(b: Seq<u8>, at: int, items: Seq<Cell>, t: TypeDefs, n: nat)
    requires
        n <= items.len(),
        holds(b, at, framed_upto(items, n)),
        forall|i: int| 0 <= i < items.len() ==> well_typed(#[trigger] items[i], t),
        forall|i: int| 0 <= i < items.len() ==> storable(#[trigger] items[i].value),
    ensures
        parse_upto(b, at, t, n) == Some((items.take(n as int), at + framed_upto(items, n).len())),
    decreases t, n,
{
    if n == 0 {
        assert(items.take(0) =~= Seq::<Cell>::empty());
    } else {
        let before = framed_upto(items, (n - 1) as nat);
        let last = items[n - 1];
        assert(framed_upto(items, n) =~= before + framed(last.value));
        lemma_holds_split(b, at, before, framed(last.value));
        lemma_parse_framed_upto(b, at, items, t, (n - 1) as nat);
        lemma_parse_framed(b, at + before.len(), last, t);
        assert(items.take(n - 1).push(last) =~= items.take(n as int));
    }
}

/// What is read as a value of type `t` is a value of type `t`, and it ends
/// behind where it starts and not behind the end of the bytes.
pub proof fn lemma_parse_typed(b: Seq<u8>, at: int, t: TypeDefs)
    ensures
        match parse_cell(b, at, t) {
            Some((c, end)) => well_typed(c, t) && 0 <= at < end <= b.len(),
            None => true,
        },
    decreases t, 0nat,
{
    match t {
        TypeDefs::Array(inner) => {
            if 0 <= at && at + 9 <= b.len() {
                lemma_parse_upto_typed(
                    b,
                    at + 9,
                    *inner,
                    spec_u64_from_le_bytes(b.subrange(at + 1, at + 9)) as nat,
                );
            }
        },
        _ => {},
    }
}

/// What is read as a run of values of type `t` is as many values of type
/// `t`, and the run ends within the bytes.
pub proof fn lemma_parse_upto_typed(b: Seq<u8>, at: int, t: TypeDefs, n: nat)
    requires
        0 <= at <= b.len(),
    ensures
        match parse_upto(b, at, t, n) {
            Some((items, end)) => {
                &&& items.len() == n
                &&& at <= end <= b.len()
                &&& forall|i: int| 0 <= i < items.len() ==> well_typed(#[trigger] items[i], t)
            },
            None => true,
        },
    decreases t, n,
{
    if n > 0 {
        lemma_parse_upto_typed(b, at, t, (n - 1) as nat);
        match parse_upto(b, at, t, (n - 1) as nat) {
            Some((items, mid)) => {
                lemma_parse_typed(b, mid, t);
            },
            None => {},
        }
    }
}

} // verus!
