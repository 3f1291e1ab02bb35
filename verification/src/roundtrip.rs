//! What a file written by this library reads back as.

use crate::format::{
    END_TAG, RECORD_TAG, TYPE_BOOLEAN, TYPE_FLOAT, TYPE_INTEGER, TYPE_STRING, entry_bytes,
    is_list_name, parse, parse_from, read_record, read_text, read_value, serialize, text_bytes,
    text_data_len, value_bytes, writable, zeros, skip_end,
};
use crate::le::{lemma_u32_roundtrip, u32_at, u32_bytes};
use crate::property::{distinct_keys, lemma_key_index, with_entry, PropertyView};
use crate::text::{join_commas, lemma_split_join, split_commas};
use crate::varint;
use vstd::prelude::*;
use vstd::utf8::{decode_utf8, encode_utf8};

verus! {

broadcast use vstd::utf8::encode_utf8_decode_utf8, vstd::utf8::encode_utf8_valid_utf8;

/// Whether an entry reads back as written: its name's UTF-8 length fits a
/// `usize`, the writer accepts its value, a value is a list
/// exactly when its name is a list name, a list has at least one item and
/// no item holds a comma, and an uninterpreted value's type byte is none of
/// those the reader interprets.
pub open spec fn reads_back(k: Seq<char>, v: PropertyView) -> bool {
    &&& encode_utf8(k).len() <= usize::MAX
    &&& writable(v)
    &&& match v {
        PropertyView::List(items) => {
            &&& is_list_name(k)
            &&& items.len() >= 1
            &&& forall|i: int| 0 <= i < items.len() ==> !(#[trigger] items[i]).contains(',')
        },
        PropertyView::String(_) => !is_list_name(k),
        PropertyView::Unknown(_, tag) => tag != TYPE_STRING && tag != TYPE_INTEGER && tag
            != TYPE_FLOAT && tag != TYPE_BOOLEAN,
        _ => true,
    }
}

/// `x` stands in `s` at `p`.
pub open spec fn occurs_at(s: Seq<u8>, p: int, x: Seq<u8>) -> bool {
    0 <= p && p + x.len() <= s.len() && s.subrange(p, p + x.len()) == x
}

proof fn lemma_occurs_part(s: Seq<u8>, p: int, x: Seq<u8>, a: int, b: int)
    requires
        occurs_at(s, p, x),
        0 <= a <= b <= x.len(),
    ensures
        occurs_at(s, p + a, x.subrange(a, b)),
{
    assert(s.subrange(p + a, p + b) =~= x.subrange(a, b)) by {
        assert forall|i: int| 0 <= i < b - a implies s.subrange(p + a, p + b)[i] == x.subrange(
            a,
            b,
        )[i] by {
            assert(s.subrange(p, p + x.len())[a + i] == x[a + i]);
        }
    }
}

proof fn lemma_read_u32(s: Seq<u8>, p: int, n: u32)
    requires
        occurs_at(s, p, u32_bytes(n)),
    ensures
        u32_at(s, p) == n as nat,
{
    let front = s.take(p);
    let rest = s.skip(p + 4);
    assert(s =~= front + u32_bytes(n) + rest);
    lemma_u32_roundtrip(front, n, rest);
}

proof fn lemma_read_text(s: Seq<u8>, p: int, t: Seq<char>)
    requires
        occurs_at(s, p, text_bytes(t)),
        encode_utf8(t).len() <= usize::MAX,
    ensures
        read_text(s, p) == Ok::<(Seq<char>, int), crate::format::ParseError>(
            (t, p + text_bytes(t).len()),
        ),
{
    let e = encode_utf8(t);
    let n = e.len();
    let pre = varint::encode(n);
    let front = s.take(p);
    let after = s.skip(p + pre.len());
    lemma_occurs_part(s, p, text_bytes(t), 0, pre.len() as int);
    assert(text_bytes(t).subrange(0, pre.len() as int) =~= pre);
    assert forall|i: int| 0 <= i < s.len() implies s[i] == (front + (pre + after))[i] by {
        if p <= i < p + pre.len() {
            assert(s.subrange(p, p + pre.len())[i - p] == s[i]);
        }
    }
    assert(s =~= front + (pre + after));
    varint::lemma_pow128_ten();
    varint::lemma_decode_shift(front, pre + after, 0, 10);
    varint::lemma_decode_encode(n, after, 10);
    lemma_occurs_part(s, p, text_bytes(t), pre.len() as int, text_bytes(t).len() as int);
    assert(text_bytes(t).subrange(pre.len() as int, text_bytes(t).len() as int) =~= e);
    assert(decode_utf8(e) == t);
}

/// Where the parts of a written record stand.
proof fn lemma_entry_layout(s: Seq<u8>, p: int, k: Seq<char>, v: PropertyView)
    requires
        occurs_at(s, p, entry_bytes(k, v)),
        reads_back(k, v),
    ensures
        s[p] == RECORD_TAG,
        read_text(s, p + 1) == Ok::<(Seq<char>, int), crate::format::ParseError>(
            (k, p + 1 + text_bytes(k).len()),
        ),
        occurs_at(s, p + 1 + text_bytes(k).len(), value_bytes(v)),
        p + 1 + text_bytes(k).len() + value_bytes(v).len() + 1 == p + entry_bytes(k, v).len(),
        p + entry_bytes(k, v).len() <= s.len(),
{
    let e = entry_bytes(k, v);
    let tk = text_bytes(k);
    let vb = value_bytes(v);
    let tl = tk.len() as int;
    let vl = vb.len() as int;
    assert(s.subrange(p, p + e.len())[0] == s[p]);
    lemma_occurs_part(s, p, e, 1, 1 + tl);
    assert(e.subrange(1, 1 + tl) =~= tk);
    lemma_read_text(s, p + 1, k);
    lemma_occurs_part(s, p, e, 1 + tl, 1 + tl + vl);
    assert(e.subrange(1 + tl, 1 + tl + vl) =~= vb);
}

/// The value written for an entry that reads back is read as that value.
proof fn lemma_value_layout(s: Seq<u8>, q: int, k: Seq<char>, v: PropertyView)
    requires
        occurs_at(s, q, value_bytes(v)),
        q + value_bytes(v).len() < s.len(),
        reads_back(k, v),
    ensures
        u32_at(s, q) != 0,
        read_value(s, q + 5, s[q + 4], u32_at(s, q), is_list_name(k)) == Some(
            Ok::<(PropertyView, int), crate::format::ParseError>((v, q + value_bytes(v).len())),
        ),
{
    let vb = value_bytes(v);
    assert(s.subrange(q, q + vb.len())[4] == s[q + 4]);
    lemma_occurs_part(s, q, vb, 0, 4);
    match v {
        PropertyView::Boolean(b) => {
            assert(vb.subrange(0, 4) =~= u32_bytes(3));
            lemma_read_u32(s, q, 3);
            assert(s.subrange(q, q + vb.len())[5] == s[q + 5]);
        },
        PropertyView::Integer(n) => {
            assert(vb.subrange(0, 4) =~= u32_bytes(6));
            lemma_read_u32(s, q, 6);
            lemma_occurs_part(s, q, vb, 5, 9);
            assert(vb.subrange(5, 9) =~= u32_bytes(n));
            lemma_read_u32(s, q + 5, n);
        },
        PropertyView::Float(n) => {
            assert(vb.subrange(0, 4) =~= u32_bytes(6));
            lemma_read_u32(s, q, 6);
            lemma_occurs_part(s, q, vb, 5, 9);
            assert(vb.subrange(5, 9) =~= u32_bytes(n));
            lemma_read_u32(s, q + 5, n);
        },
        PropertyView::String(t) => {
            lemma_text_data_len(t);
            let dl = text_data_len(t) as u32;
            assert(vb.subrange(0, 4) =~= u32_bytes(dl));
            lemma_read_u32(s, q, dl);
            lemma_occurs_part(s, q, vb, 5, vb.len() as int);
            assert(vb.subrange(5, vb.len() as int) =~= text_bytes(t));
            lemma_read_text(s, q + 5, t);
        },
        PropertyView::List(items) => {
            let t = join_commas(items);
            lemma_text_data_len(t);
            let dl = text_data_len(t) as u32;
            assert(vb.subrange(0, 4) =~= u32_bytes(dl));
            lemma_read_u32(s, q, dl);
            lemma_occurs_part(s, q, vb, 5, vb.len() as int);
            assert(vb.subrange(5, vb.len() as int) =~= text_bytes(t));
            lemma_read_text(s, q + 5, t);
            lemma_split_join(items);
        },
        PropertyView::Unknown(b, tag) => {
            let dl = (2 + b.len()) as u32;
            assert(vb.subrange(0, 4) =~= u32_bytes(dl));
            lemma_read_u32(s, q, dl);
            lemma_occurs_part(s, q, vb, 5, vb.len() as int);
            assert(vb.subrange(5, vb.len() as int) =~= b);
            assert(s.subrange(q + 5, q + 5 + b.len()) + zeros(0) =~= b);
        },
    }
}

/// The record written for an entry that reads back is read as that entry.
pub proof fn lemma_read_entry(s: Seq<u8>, p: int, k: Seq<char>, v: PropertyView)
    requires
        occurs_at(s, p, entry_bytes(k, v)),
        reads_back(k, v),
    ensures
        read_record(s, p) == Some(
            Ok::<(Option<(Seq<char>, PropertyView)>, int), crate::format::ParseError>(
                (Some((k, v)), p + entry_bytes(k, v).len()),
            ),
        ),
{
    lemma_entry_layout(s, p, k, v);
    let q = p + 1 + text_bytes(k).len();
    lemma_value_layout(s, q, k, v);
}

/// A text value's data length fits in four bytes.
proof fn lemma_text_data_len(t: Seq<char>)
    requires
        encode_utf8(t).len() <= crate::format::MAX_TEXT_BYTES,
    ensures
        text_data_len(t) <= u32::MAX,
        encode_utf8(t).len() <= usize::MAX,
{
    reveal_with_fuel(varint::pow128, 6);
    varint::lemma_encode_len(encode_utf8(t).len(), 5);
}

/// A list is written exactly as the text of its items joined with commas.
pub proof fn theorem_list_written_as_joined_text(items: Seq<Seq<char>>)
    ensures
        value_bytes(PropertyView::List(items)) == value_bytes(
            PropertyView::String(join_commas(items)),
        ),
{
}

/// The data length written for a value counts every byte that follows it
/// up to and including the end byte: the type byte, the value's bytes and
/// the end byte.
pub proof fn theorem_data_length_counts_record(v: PropertyView)
    requires
        writable(v),
    ensures
        value_bytes(v).len() >= 5,
        u32_at(value_bytes(v), 0) == (value_bytes(v).len() - 4) + 1,
{
    let vb = value_bytes(v);
    let dl: u32 = match v {
        PropertyView::Boolean(_) => 3,
        PropertyView::Integer(_) => 6,
        PropertyView::Float(_) => 6,
        PropertyView::String(t) => {
            lemma_text_data_len(t);
            text_data_len(t) as u32
        },
        PropertyView::List(items) => {
            lemma_text_data_len(join_commas(items));
            text_data_len(join_commas(items)) as u32
        },
        PropertyView::Unknown(b, _) => (2 + b.len()) as u32,
    };
    let rest = vb.skip(4);
    assert(vb =~= Seq::<u8>::empty() + u32_bytes(dl) + rest);
    lemma_u32_roundtrip(Seq::empty(), dl, rest);
}

/// Reading the records written for `m` after `front` adds the entries of
/// `m` to those already read.
#[verifier::rlimit(50)]
proof fn lemma_parse_written(
    front: Seq<u8>,
    m: Seq<(Seq<char>, PropertyView)>,
    acc: Seq<(Seq<char>, PropertyView)>,
)
    requires
        distinct_keys(acc + m),
        forall|i: int| 0 <= i < m.len() ==> reads_back(#[trigger] m[i].0, m[i].1),
    ensures
        parse_from(front + serialize(m), front.len() as int, acc) == Some(
            Ok::<Seq<(Seq<char>, PropertyView)>, crate::format::ParseError>(acc + m),
        ),
    decreases m.len(),
{
    let s = front + serialize(m);
    if m.len() == 0 {
        assert(s =~= front);
        assert(acc + m =~= acc);
    } else {
        let (k, v) = m[0];
        let e = entry_bytes(k, v);
        let rest = m.drop_first();
        assert(s =~= (front + e) + serialize(rest));
        assert(occurs_at(s, front.len() as int, e)) by {
            assert(s.subrange(front.len() as int, (front.len() + e.len()) as int) =~= e);
        }
        assert(reads_back(m[0].0, m[0].1));
        lemma_read_entry(s, front.len() as int, k, v);
        lemma_key_index(acc, k);
        assert forall|j: int| 0 <= j < acc.len() implies (#[trigger] acc[j]).0 != k by {
            assert((acc + m)[j] == acc[j]);
            assert((acc + m)[acc.len() as int] == m[0]);
        }
        assert(with_entry(acc, k, v) == acc.push((k, v)));
        let acc2 = acc.push((k, v));
        assert(acc2 + rest =~= acc + m);
        assert forall|i: int| 0 <= i < rest.len() implies reads_back(#[trigger] rest[i].0, rest[i].1) by {
            assert(rest[i] == m[i + 1]);
        }
        lemma_parse_written(front + e, rest, acc2);
    }
}

/// What the library writes, it reads back: for a map whose entries all read
/// back, reading the bytes that `serialize_properties` writes gives the
/// same entries in the same order.
pub proof fn theorem_read_what_was_written(m: Seq<(Seq<char>, PropertyView)>)
    requires
        distinct_keys(m),
        forall|i: int| 0 <= i < m.len() ==> reads_back(#[trigger] m[i].0, m[i].1),
    ensures
        parse(serialize(m)) == Some(
            Ok::<Seq<(Seq<char>, PropertyView)>, crate::format::ParseError>(m),
        ),
{
    let empty = Seq::<(Seq<char>, PropertyView)>::empty();
    assert(empty + m =~= m);
    lemma_parse_written(Seq::empty(), m, empty);
    assert(Seq::<u8>::empty() + serialize(m) =~= serialize(m));
}

} // verus!
