//! Results as messages of the wire protocol.
use crate::bytes::{complement, le, put_bytes, put_le, word_i32, word_i64};
use crate::host::{Host, HostView};
use crate::types::{DataType, Value, ValueView};
use crate::values::{show, value_text};
use vstd::prelude::*;
use vstd::utf8::encode_utf8;

verus! {

/// The message that names and describes the columns.
pub const MSG_ROW_HEADER: u8 = 0x10;

/// The message that holds a row.
pub const MSG_ROW: u8 = 0x11;

/// The message that ends a result.
pub const MSG_DONE: u8 = 0x12;

/// A message: its kind, the length of what it holds, and what it holds.
pub open spec fn message(kind: u8, payload: Seq<u8>) -> Seq<u8> {
    seq![kind] + le(payload.len() as int, 4) + payload
}

/// Appends a message.
pub fn append_msg(buf: &mut Vec<u8>, msg_type: u8, payload: &Vec<u8>)
    ensures
        final(buf)@ == old(buf)@ + message(msg_type, payload@),
{
    let ghost start = buf@;
    buf.push(msg_type);
    put_le(buf, payload.len() as u64, 4);
    put_bytes(buf, payload.as_slice());
    assert(buf@ =~= start + message(msg_type, payload@));
}

/// The tag of a type's values.
pub open spec fn wire_tag(t: DataType) -> u8 {
    match t {
        DataType::Integer => 1,
        DataType::Date => 1,
        DataType::Time => 1,
        DataType::BigInt => 2,
        DataType::DateTime => 2,
        DataType::Float => 3,
        DataType::Boolean => 4,
        _ => 5,
    }
}

/// The tag of a type's values.
pub fn datatype_to_wire_tag(dt: &DataType) -> (r: u8)
    ensures
        r == wire_tag(*dt),
{
    match dt {
        DataType::Integer => 1,
        DataType::Date => 1,
        DataType::Time => 1,
        DataType::BigInt => 2,
        DataType::DateTime => 2,
        DataType::Float => 3,
        DataType::Boolean => 4,
        _ => 5,
    }
}

/// The host that has no results: texts of values other than doubles need none.
pub open spec fn no_host() -> HostView {
    HostView {
        now: 0,
        nanos: 0,
        numeric: Seq::empty(),
        parsed: Seq::empty(),
        shown: Seq::empty(),
        debugged: Seq::empty(),
    }
}

/// The text of a value that is not a double.
pub open spec fn plain_text(v: ValueView) -> Seq<char> {
    match value_text(v, no_host()) {
        Ok(t) => t,
        Err(_) => Seq::empty(),
    }
}

/// The text of a value that is not a double.
pub fn show_plain(v: &Value) -> (r: String)
    ensures
        r@ == plain_text(v@),
{
    let host = Host::new(0, 0);
    assert(host@.numeric =~= Seq::empty());
    assert(host@.parsed =~= Seq::empty());
    assert(host@.shown =~= Seq::empty());
    assert(host@.debugged =~= Seq::empty());
    assert(host@ == no_host());
    match show(v, &host) {
        Ok(t) => t,
        Err(_) => {
            let s = String::new();
            assert(s@ =~= Seq::<char>::empty());
            s
        },
    }
}

/// A text as a value: its length and its bytes.
pub open spec fn wire_text(t: Seq<char>) -> Seq<u8> {
    seq![5u8] + le(encode_utf8(t).len() as int, 4) + encode_utf8(t)
}

/// A value: its tag and its bytes. Dates and times are numbers, and what has no tag of its own
/// is a text.
pub open spec fn wire_value(v: ValueView) -> Seq<u8> {
    match v {
        ValueView::Null => seq![0u8],
        ValueView::Integer(n) => seq![1u8] + le(complement(n as int, 4), 4),
        ValueView::Date(n) => seq![1u8] + le(complement(n as int, 4), 4),
        ValueView::Time(n) => seq![1u8] + le(complement(n as int, 4), 4),
        ValueView::BigInt(n) => seq![2u8] + le(complement(n as int, 8), 8),
        ValueView::DateTime(n) => seq![2u8] + le(complement(n as int, 8), 8),
        ValueView::Float(f) => seq![3u8] + le(f as int, 8),
        ValueView::Boolean(b) => seq![
            4u8,
            if b {
                1u8
            } else {
                0u8
            },
        ],
        _ => wire_text(plain_text(v)),
    }
}

/// Appends a text as a value.
pub fn put_wire_text(out: &mut Vec<u8>, t: &str)
    ensures
        final(out)@ == old(out)@ + wire_text(t@),
{
    let ghost start = out@;
    let b = t.as_bytes();
    out.push(5);
    put_le(out, b.len() as u64, 4);
    put_bytes(out, b);
    assert(out@ =~= start + wire_text(t@));
}

/// Appends a value.
pub fn put_wire(out: &mut Vec<u8>, v: &Value)
    ensures
        final(out)@ == old(out)@ + wire_value(v@),
{
    let ghost start = out@;
    match v {
        Value::Null => out.push(0),
        Value::Integer(n) => {
            out.push(1);
            put_le(out, word_i32(*n), 4);
        },
        Value::Date(n) => {
            out.push(1);
            put_le(out, word_i32(*n), 4);
        },
        Value::Time(n) => {
            out.push(1);
            put_le(out, word_i32(*n), 4);
        },
        Value::BigInt(n) => {
            out.push(2);
            put_le(out, word_i64(*n), 8);
        },
        Value::DateTime(n) => {
            out.push(2);
            put_le(out, word_i64(*n), 8);
        },
        Value::Float(f) => {
            out.push(3);
            put_le(out, *f, 8);
        },
        Value::Boolean(b) => {
            out.push(4);
            out.push(
                if *b {
                    1
                } else {
                    0
                },
            );
        },
        _ => {
            let t = show_plain(v);
            put_wire_text(out, t.as_str());
        },
    }
    assert(out@ =~= start + wire_value(v@));
}

/// The descriptions of the first `n` columns: name and tag.
pub open spec fn described_columns(names: Seq<Seq<char>>, tags: Seq<u8>, n: int) -> Seq<u8>
    decreases n,
{
    if n <= 0 {
        Seq::empty()
    } else {
        let b = encode_utf8(names[n - 1]);
        (described_columns(names, tags, n - 1) + le(b.len() as int, 2) + b).push(tags[n - 1])
    }
}

/// The message that names and describes the columns.
pub open spec fn header_message(names: Seq<Seq<char>>, tags: Seq<u8>) -> Seq<u8> {
    message(
        MSG_ROW_HEADER,
        le(names.len() as int, 2) + described_columns(names, tags, names.len() as int),
    )
}

/// Appends the message that names and describes the columns.
pub fn put_header(out: &mut Vec<u8>, names: &Vec<String>, tags: &Vec<u8>)
    requires
        tags.len() == names.len(),
    ensures
        final(out)@ == old(out)@ + header_message(names.deep_view(), tags@),
{
    let ghost nv = names.deep_view();
    let mut hdr: Vec<u8> = Vec::new();
    put_le(&mut hdr, names.len() as u64, 2);
    let ghost start = hdr@;
    assert(start =~= le(nv.len() as int, 2));
    let mut i: usize = 0;
    assert(start + described_columns(nv, tags@, 0) =~= start);
    while i < names.len()
        invariant
            0 <= i <= names.len(),
            nv == names.deep_view(),
            tags.len() == names.len(),
            hdr@ == start + described_columns(nv, tags@, i as int),
        decreases names.len() - i,
    {
        assert(nv[i as int] == names@[i as int]@);
        let b = names[i].as_str().as_bytes();
        put_le(&mut hdr, b.len() as u64, 2);
        put_bytes(&mut hdr, b);
        hdr.push(tags[i]);
        assert(hdr@ =~= start + described_columns(nv, tags@, i + 1));
        i += 1;
    }
    append_msg(out, MSG_ROW_HEADER, &hdr);
}

/// The message that ends a result: how many rows there were.
pub open spec fn done_message(rows: int) -> Seq<u8> {
    message(MSG_DONE, le(rows, 8))
}

/// Appends the message that ends a result.
pub fn put_done(out: &mut Vec<u8>, rows: usize)
    ensures
        final(out)@ == old(out)@ + done_message(rows as int),
{
    let mut p: Vec<u8> = Vec::new();
    put_le(&mut p, rows as u64, 8);
    assert(p@ =~= le(rows as int, 8));
    append_msg(out, MSG_DONE, &p);
}

} // verus!
