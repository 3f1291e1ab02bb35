//! The property file format.
//!
//! A file is a run of records. Each record is the byte `0x7e`, the
//! property's name as a text, a four-byte little-endian data length, and,
//! when that length is not zero, a type byte, the value and an end byte
//! `0x7b`. A text is its UTF-8 length as a seven-bit length prefix followed
//! by its UTF-8 bytes. The data length counts the type byte, the value's
//! bytes and the end byte.

use crate::le::{read_u32_le, u32_at, u32_bytes, write_u32_le};
use crate::property::{with_entry, Property, PropertyMap, PropertyView};
use crate::text::{join_commas, join_list, same_text, split_commas, split_list, utf8_string};
use crate::varint;
use crate::varint::DecodeError;
use vstd::prelude::*;
use vstd::utf8::{decode_utf8, encode_utf8, valid_utf8};

verus! {

/// The byte that starts a record.
pub const RECORD_TAG: u8 = 0x7e;

/// The byte that ends a record's value.
pub const END_TAG: u8 = 0x7b;

/// The type byte of a text.
pub const TYPE_STRING: u8 = 0x01;

/// The type byte of an integer.
pub const TYPE_INTEGER: u8 = 0x02;

/// The type byte of a single-precision number.
pub const TYPE_FLOAT: u8 = 0x06;

/// The type byte of a flag.
pub const TYPE_BOOLEAN: u8 = 0x09;

/// The bytes of the format: records start with `0x7e` and end with `0x7b`;
/// texts have type `0x01`, integers `0x02`, single-precision numbers `0x06`
/// and flags `0x09`.
pub proof fn lemma_format_bytes()
    ensures
        RECORD_TAG == 0x7e,
        END_TAG == 0x7b,
        TYPE_STRING == 0x01,
        TYPE_INTEGER == 0x02,
        TYPE_FLOAT == 0x06,
        TYPE_BOOLEAN == 0x09,
{
}

/// Why a property file could not be read.
#[derive(Clone, Copy, Debug, PartialEq, Eq)]
pub enum ParseError {
    /// A record starts with this byte instead of `0x7e`.
    UnexpectedTag(u8),
    /// The file ends inside a record.
    UnexpectedEof,
    /// A text's length prefix is longer than ten bytes, or its value
    /// exceeds 64 bits.
    BadLength,
    /// A text is not valid UTF-8.
    InvalidText,
}

/// Whether the property named `k` holds a comma-separated list.
pub open spec fn is_list_name(k: Seq<char>) -> bool {
    ||| k == "CombatSelects"@
    ||| k == "CombatSkills"@
    ||| k == "SkillPoints"@
    ||| k == "SpellFavorites"@
    ||| k == "SpellSkills"@
}

/// Whether the property named `name` holds a comma-separated list.
pub fn is_list_property(name: &str) -> (r: bool)
    ensures
        r == is_list_name(name@),
{
    same_text(name, "CombatSelects") || same_text(name, "CombatSkills") || same_text(
        name,
        "SkillPoints",
    ) || same_text(name, "SpellFavorites") || same_text(name, "SpellSkills")
}

/// The error for a length prefix that could not be read.
pub open spec fn prefix_error(e: DecodeError) -> ParseError {
    match e {
        DecodeError::Truncated => ParseError::UnexpectedEof,
        DecodeError::TooLong => ParseError::BadLength,
    }
}

/// Reads the text at `pos`: its characters and the position after it.
pub open spec fn read_text(s: Seq<u8>, pos: int) -> Result<(Seq<char>, int), ParseError> {
    match varint::decode(s, pos, varint::MAX_PREFIX_BYTES as nat) {
        Err(e) => Err(prefix_error(e)),
        Ok((len, k)) => {
            let start = pos + k;
            if start + len > s.len() {
                Err(ParseError::UnexpectedEof)
            } else {
                let bytes = s.subrange(start, start + len);
                if valid_utf8(bytes) {
                    Ok((decode_utf8(bytes), start + len))
                } else {
                    Err(ParseError::InvalidText)
                }
            }
        },
    }
}

/// `n` zero bytes.
pub open spec fn zeros(n: nat) -> Seq<u8> {
    Seq::new(n, |i: int| 0u8)
}

/// Reads a value of type `tag` at `pos`, given the record's data length and
/// whether its name is one of the list names: the value and the position
/// after it. `None` for a value of an uninterpreted type whose data length
/// is below two, which has no well-defined size.
///
/// The bytes of an uninterpreted value are those the file still holds, up
/// to the data length less two, padded with zeros to that length.
pub open spec fn read_value(s: Seq<u8>, pos: int, tag: u8, data_len: nat, list: bool) -> Option<
    Result<(PropertyView, int), ParseError>,
> {
    if tag == TYPE_STRING {
        Some(
            match read_text(s, pos) {
                Err(e) => Err(e),
                Ok((t, next)) => Ok(
                    (
                        if list {
                            PropertyView::List(split_commas(t))
                        } else {
                            PropertyView::String(t)
                        },
                        next,
                    ),
                ),
            },
        )
    } else if tag == TYPE_INTEGER || tag == TYPE_FLOAT {
        Some(
            if pos + 4 > s.len() {
                Err(ParseError::UnexpectedEof)
            } else {
                let n = u32_at(s, pos) as u32;
                Ok(
                    (
                        if tag == TYPE_INTEGER {
                            PropertyView::Integer(n)
                        } else {
                            PropertyView::Float(n)
                        },
                        pos + 4,
                    ),
                )
            },
        )
    } else if tag == TYPE_BOOLEAN {
        Some(
            if pos >= s.len() {
                Err(ParseError::UnexpectedEof)
            } else {
                Ok((PropertyView::Boolean(s[pos] != 0), pos + 1))
            },
        )
    } else if data_len < 2 {
        None
    } else {
        let n = (data_len - 2) as nat;
        let avail = if n <= s.len() - pos {
            n
        } else {
            (s.len() - pos) as nat
        };
        Some(
            Ok(
                (
                    PropertyView::Unknown(
                        s.subrange(pos, pos + avail) + zeros((n - avail) as nat),
                        tag,
                    ),
                    pos + avail,
                ),
            ),
        )
    }
}

/// The position after the end byte that follows a value ending at `pos`;
/// at the end of the file there is none to pass.
pub open spec fn skip_end(s: Seq<u8>, pos: int) -> int {
    if pos < s.len() {
        pos + 1
    } else {
        pos
    }
}

/// Reads the record at `pos`, which is inside the file: the entry it sets,
/// if its data length is not zero, and the position after it. `None` where
/// it holds a value of an uninterpreted type whose data length is below two.
pub open spec fn read_record(s: Seq<u8>, pos: int) -> Option<
    Result<(Option<(Seq<char>, PropertyView)>, int), ParseError>,
> {
    if s[pos] != RECORD_TAG {
        Some(Err(ParseError::UnexpectedTag(s[pos])))
    } else {
        match read_text(s, pos + 1) {
            Err(e) => Some(Err(e)),
            Ok((name, p)) => if p + 4 > s.len() {
                Some(Err(ParseError::UnexpectedEof))
            } else {
                let data_len = u32_at(s, p);
                let q = p + 4;
                if data_len == 0 {
                    Some(Ok((None, q)))
                } else if q >= s.len() {
                    Some(Err(ParseError::UnexpectedEof))
                } else {
                    match read_value(s, q + 1, s[q], data_len, is_list_name(name)) {
                        None => None,
                        Some(Err(e)) => Some(Err(e)),
                        Some(Ok((v, r))) => Some(Ok((Some((name, v)), skip_end(s, r)))),
                    }
                }
            },
        }
    }
}

/// The bytes of a text: its UTF-8 length as a length prefix, then its UTF-8
/// bytes.
pub open spec fn text_bytes(t: Seq<char>) -> Seq<u8> {
    varint::encode(encode_utf8(t).len()) + encode_utf8(t)
}

/// The data length of a text value: the type byte, the text and the end
/// byte.
pub open spec fn text_data_len(t: Seq<char>) -> nat {
    2 + text_bytes(t).len()
}

/// The bytes of a value, from its data length to its last byte before the
/// end byte.
pub open spec fn value_bytes(v: PropertyView) -> Seq<u8> {
    match v {
        PropertyView::Boolean(b) => u32_bytes(3) + seq![
            TYPE_BOOLEAN,
            if b {
                1u8
            } else {
                0u8
            },
        ],
        PropertyView::Integer(n) => u32_bytes(6) + seq![TYPE_INTEGER] + u32_bytes(n),
        PropertyView::Float(n) => u32_bytes(6) + seq![TYPE_FLOAT] + u32_bytes(n),
        PropertyView::String(t) => u32_bytes(text_data_len(t) as u32) + seq![TYPE_STRING]
            + text_bytes(t),
        PropertyView::List(items) => u32_bytes(text_data_len(join_commas(items)) as u32) + seq![
            TYPE_STRING,
        ] + text_bytes(join_commas(items)),
        PropertyView::Unknown(b, tag) => u32_bytes((2 + b.len()) as u32) + seq![tag] + b,
    }
}

/// The bytes of the record for `(k, v)`.
pub open spec fn entry_bytes(k: Seq<char>, v: PropertyView) -> Seq<u8> {
    seq![RECORD_TAG] + text_bytes(k) + value_bytes(v) + seq![END_TAG]
}

/// The bytes of a file holding the entries of `m`, in order.
pub open spec fn serialize(m: Seq<(Seq<char>, PropertyView)>) -> Seq<u8>
    decreases m.len(),
{
    if m.len() == 0 {
        Seq::empty()
    } else {
        entry_bytes(m[0].0, m[0].1) + serialize(m.drop_first())
    }
}

/// The largest UTF-8 length of a text value that the writer accepts.
pub const MAX_TEXT_BYTES: usize = 0x7fff_ffff;

/// Whether the writer accepts a value: a text, or the
/// joined items of a list, of at most `MAX_TEXT_BYTES` UTF-8 bytes, and an
/// uninterpreted value whose data length fits in four bytes.
pub open spec fn writable(v: PropertyView) -> bool {
    match v {
        PropertyView::String(t) => encode_utf8(t).len() <= MAX_TEXT_BYTES,
        PropertyView::List(items) => encode_utf8(join_commas(items)).len() <= MAX_TEXT_BYTES,
        PropertyView::Unknown(b, _) => b.len() + 2 <= u32::MAX,
        _ => true,
    }
}

/// Whether the writer accepts every value of `m`.
pub open spec fn all_writable(m: Seq<(Seq<char>, PropertyView)>) -> bool {
    forall|i: int| 0 <= i < m.len() ==> writable(#[trigger] m[i].1)
}

/// Reading a text moves forward.
pub proof fn lemma_read_text_advances(s: Seq<u8>, pos: int)
    ensures
        read_text(s, pos) matches Ok((_, next)) ==> pos < next <= s.len(),
{
    lemma_decode_bounds(s, pos, varint::MAX_PREFIX_BYTES as nat);
}

/// A decoded prefix lies inside the input.
pub proof fn lemma_decode_bounds(s: Seq<u8>, pos: int, budget: nat)
    ensures
        varint::decode(s, pos, budget) matches Ok((_, k)) ==> 1 <= k && 0 <= pos && pos + k <= s.len(),
    decreases budget,
{
    if budget > 0 && 0 <= pos < s.len() && s[pos] >= 128 {
        lemma_decode_bounds(s, pos + 1, (budget - 1) as nat);
    }
}

/// Reading a record moves forward.
pub proof fn lemma_read_record_advances(s: Seq<u8>, pos: int)
    requires
        0 <= pos < s.len(),
    ensures
        read_record(s, pos) matches Some(Ok((_, next))) ==> pos < next <= s.len(),
{
    lemma_read_text_advances(s, pos + 1);
}

/// The entries read from position `pos` on, added to `acc`; `None` where a
/// record holds a value of an uninterpreted type whose data length is below
/// two.
pub open spec fn parse_from(s: Seq<u8>, pos: int, acc: Seq<(Seq<char>, PropertyView)>) -> Option<
    Result<Seq<(Seq<char>, PropertyView)>, ParseError>,
>
    decreases s.len() - pos,
{
    if pos < 0 || pos >= s.len() {
        Some(Ok(acc))
    } else {
        match read_record(s, pos) {
            None => None,
            Some(Err(e)) => Some(Err(e)),
            Some(Ok((entry, next))) => {
                proof {
                    lemma_read_record_advances(s, pos);
                }
                let acc2 = match entry {
                    Some((k, v)) => with_entry(acc, k, v),
                    None => acc,
                };
                parse_from(s, next, acc2)
            },
        }
    }
}

/// The properties that a file holds, or why it cannot be read; `None` where
/// a record holds a value of an uninterpreted type whose data length is
/// below two.
pub open spec fn parse(s: Seq<u8>) -> Option<Result<Seq<(Seq<char>, PropertyView)>, ParseError>> {
    parse_from(s, 0, Seq::empty())
}

fn read_text_at(s: &[u8], pos: usize) -> (r: Result<(String, usize), ParseError>)
    ensures
        match r {
            Ok((t, next)) => read_text(s@, pos as int) == Ok::<(Seq<char>, int), ParseError>(
                (t@, next as int),
            ),
            Err(e) => read_text(s@, pos as int) == Err::<(Seq<char>, int), ParseError>(e),
        },
{
    match varint::decode_at(s, pos, varint::MAX_PREFIX_BYTES) {
        Err(e) => Err(
            match e {
                DecodeError::Truncated => ParseError::UnexpectedEof,
                DecodeError::TooLong => ParseError::BadLength,
            },
        ),
        Ok((len, k)) => {
            assert(pos + k <= s@.len());
            let total = s.len();
            assert(pos + k <= total);
            let start = pos + k;
            if len > (s.len() - start) as u64 {
                return Err(ParseError::UnexpectedEof);
            }
            let end = start + len as usize;
            match utf8_string(&s[start..end]) {
                Some(t) => Ok((t, end)),
                None => Err(ParseError::InvalidText),
            }
        },
    }
}

fn read_value_at(s: &[u8], pos: usize, tag: u8, data_len: u32, list: bool) -> (r: Option<
    Result<(Property, usize), ParseError>,
>)
    requires
        pos <= s@.len(),
    ensures
        match r {
            None => read_value(s@, pos as int, tag, data_len as nat, list) is None,
            Some(Err(e)) => read_value(s@, pos as int, tag, data_len as nat, list) == Some(
                Err::<(PropertyView, int), ParseError>(e),
            ),
            Some(Ok((v, next))) => read_value(s@, pos as int, tag, data_len as nat, list) == Some(
                Ok::<(PropertyView, int), ParseError>((v@, next as int)),
            ),
        },
{
    if tag == TYPE_STRING {
        match read_text_at(s, pos) {
            Err(e) => Some(Err(e)),
            Ok((t, next)) => {
                if list {
                    Some(Ok((Property::List(split_list(t.as_str())), next)))
                } else {
                    Some(Ok((Property::String(t), next)))
                }
            },
        }
    } else if tag == TYPE_INTEGER || tag == TYPE_FLOAT {
        if s.len() - pos < 4 {
            Some(Err(ParseError::UnexpectedEof))
        } else {
            let n = read_u32_le(&s[pos..pos + 4]);
            if tag == TYPE_INTEGER {
                Some(Ok((Property::Integer(n), pos + 4)))
            } else {
                Some(Ok((Property::Float(n), pos + 4)))
            }
        }
    } else if tag == TYPE_BOOLEAN {
        if pos >= s.len() {
            Some(Err(ParseError::UnexpectedEof))
        } else {
            Some(Ok((Property::Boolean(s[pos] != 0), pos + 1)))
        }
    } else if data_len < 2 {
        None
    } else {
        let n: usize = (data_len - 2) as usize;
        let avail: usize = if n <= s.len() - pos {
            n
        } else {
            s.len() - pos
        };
        let total = s.len();
        let mut bytes: Vec<u8> = vec![0u8; n];
        let mut i: usize = 0;
        while i < avail
            invariant
                i <= avail <= n,
                pos + avail <= s@.len(),
                total == s@.len(),
                bytes@.len() == n,
                forall|j: int| 0 <= j < i ==> bytes@[j] == s@[pos + j],
                forall|j: int| i <= j < n ==> bytes@[j] == 0u8,
            decreases avail - i,
        {
            assert(pos + i < s@.len());
            bytes.set(i, s[pos + i]);
            i = i + 1;
        }
        assert(bytes@ =~= s@.subrange(pos as int, pos + avail) + zeros((n - avail) as nat));
        Some(Ok((Property::Unknown(bytes, tag), pos + avail)))
    }
}

fn read_record_at(s: &[u8], pos: usize) -> (r: Option<
    Result<(Option<(String, Property)>, usize), ParseError>,
>)
    requires
        pos < s@.len(),
    ensures
        match r {
            None => read_record(s@, pos as int) is None,
            Some(Err(e)) => read_record(s@, pos as int) == Some(
                Err::<(Option<(Seq<char>, PropertyView)>, int), ParseError>(e),
            ),
            Some(Ok((None, next))) => read_record(s@, pos as int) == Some(
                Ok::<(Option<(Seq<char>, PropertyView)>, int), ParseError>((None, next as int)),
            ),
            Some(Ok((Some((k, v)), next))) => read_record(s@, pos as int) == Some(
                Ok::<(Option<(Seq<char>, PropertyView)>, int), ParseError>(
                    (Some((k@, v@)), next as int),
                ),
            ),
        },
{
    if s[pos] != RECORD_TAG {
        return Some(Err(ParseError::UnexpectedTag(s[pos])));
    }
    let (name, p) = match read_text_at(s, pos + 1) {
        Err(e) => return Some(Err(e)),
        Ok(x) => x,
    };
    proof {
        lemma_read_text_advances(s@, pos + 1);
    }
    if s.len() - p < 4 {
        return Some(Err(ParseError::UnexpectedEof));
    }
    let data_len = read_u32_le(&s[p..p + 4]);
    let q = p + 4;
    if data_len == 0 {
        return Some(Ok((None, q)));
    }
    if q >= s.len() {
        return Some(Err(ParseError::UnexpectedEof));
    }
    let list = is_list_property(name.as_str());
    match read_value_at(s, q + 1, s[q], data_len, list) {
        None => None,
        Some(Err(e)) => Some(Err(e)),
        Some(Ok((v, r))) => {
            let next = if r < s.len() {
                r + 1
            } else {
                r
            };
            Some(Ok((Some((name, v)), next)))
        },
    }
}

fn push_all(out: &mut Vec<u8>, b: &[u8])
    ensures
        final(out)@ == old(out)@ + b@,
{
    let mut i: usize = 0;
    while i < b.len()
        invariant
            i <= b@.len(),
            out@ == old(out)@ + b@.take(i as int),
        decreases b@.len() - i,
    {
        out.push(b[i]);
        i = i + 1;
        assert(out@ =~= old(out)@ + b@.take(i as int));
    }
    assert(b@.take(i as int) =~= b@);
}

fn write_text(out: &mut Vec<u8>, t: &str)
    ensures
        final(out)@ == old(out)@ + text_bytes(t@),
{
    let b = t.as_bytes();
    let prefix = varint::encode_len(b.len());
    push_all(out, prefix.as_slice());
    push_all(out, b);
    assert(out@ =~= old(out)@ + text_bytes(t@));
}

/// The data length of a text value of `len` UTF-8 bytes: the type byte,
/// the length prefix, the bytes and the end byte.
fn text_data_len_of(len: usize) -> (n: u32)
    requires
        len <= MAX_TEXT_BYTES,
    ensures
        n as nat == 2 + varint::encode(len as nat).len() + len,
{
    proof {
        reveal_with_fuel(varint::pow128, 6);
        varint::lemma_encode_len(len as nat, 5);
    }
    let prefix = varint::encode_len(len);
    (2 + prefix.len() + len) as u32
}

fn write_value(out: &mut Vec<u8>, v: &Property)
    requires
        writable(v@),
    ensures
        final(out)@ == old(out)@ + value_bytes(v@),
{
    match v {
        Property::Boolean(b) => {
            push_all(out, write_u32_le(3).as_slice());
            out.push(TYPE_BOOLEAN);
            out.push(
                if *b {
                    1
                } else {
                    0
                },
            );
        },
        Property::Integer(n) => {
            push_all(out, write_u32_le(6).as_slice());
            out.push(TYPE_INTEGER);
            push_all(out, write_u32_le(*n).as_slice());
        },
        Property::Float(n) => {
            push_all(out, write_u32_le(6).as_slice());
            out.push(TYPE_FLOAT);
            push_all(out, write_u32_le(*n).as_slice());
        },
        Property::String(t) => {
            let len = t.as_str().as_bytes().len();
            push_all(out, write_u32_le(text_data_len_of(len)).as_slice());
            out.push(TYPE_STRING);
            write_text(out, t.as_str());
        },
        Property::List(items) => {
            let joined = join_list(items);
            let len = joined.as_str().as_bytes().len();
            push_all(out, write_u32_le(text_data_len_of(len)).as_slice());
            out.push(TYPE_STRING);
            write_text(out, joined.as_str());
        },
        Property::Unknown(b, tag) => {
            push_all(out, write_u32_le((2 + b.len()) as u32).as_slice());
            out.push(*tag);
            push_all(out, b.as_slice());
        },
    }
    assert(out@ =~= old(out)@ + value_bytes(v@));
}

/// Writes the properties of `m`, in order, as a property file.
pub fn serialize_properties(m: &PropertyMap) -> (out: Vec<u8>)
    requires
        all_writable(m@),
    ensures
        out@ == serialize(m@),
{
    let mut out: Vec<u8> = Vec::new();
    let mut i: usize = 0;
    assert(m@.skip(0) =~= m@);
    while i < m.len()
        invariant
            i <= m@.len(),
            all_writable(m@),
            out@ + serialize(m@.skip(i as int)) == serialize(m@),
        decreases m@.len() - i,
    {
        let ghost before = out@;
        assert(m@.skip(i as int).drop_first() =~= m@.skip(i + 1));
        assert(m@.skip(i as int)[0] == m@[i as int]);
        out.push(RECORD_TAG);
        write_text(&mut out, m.key_at(i).as_str());
        assert(writable(m@[i as int].1));
        write_value(&mut out, m.value_at(i));
        out.push(END_TAG);
        assert(out@ =~= before + entry_bytes(m@[i as int].0, m@[i as int].1));
        assert(before + entry_bytes(m@[i as int].0, m@[i as int].1) + serialize(m@.skip(i + 1))
            =~= before + serialize(m@.skip(i as int)));
        i = i + 1;
    }
    assert(m@.skip(i as int) =~= Seq::<(Seq<char>, PropertyView)>::empty());
    assert(out@ + serialize(m@.skip(i as int)) =~= out@);
    out
}

/// Reads a property file, or says why it cannot be read; `None` for a file
/// holding a value of an uninterpreted type whose data length is below two.
///
/// Records are read in order; a name read again replaces the earlier value
/// in its place, and a record whose data length is zero sets nothing. A
/// list name's text is split at its commas.
pub fn try_parse_properties(s: &[u8]) -> (r: Option<Result<PropertyMap, ParseError>>)
    ensures
        match r {
            None => parse(s@) is None,
            Some(Err(e)) => parse(s@) == Some(Err::<Seq<(Seq<char>, PropertyView)>, ParseError>(e)),
            Some(Ok(m)) => parse(s@) == Some(
                Ok::<Seq<(Seq<char>, PropertyView)>, ParseError>(m@),
            ),
        },
{
    let mut m = PropertyMap::new();
    let mut pos: usize = 0;
    while pos < s.len()
        invariant
            pos <= s@.len(),
            parse(s@) == parse_from(s@, pos as int, m@),
        decreases s@.len() - pos,
    {
        proof {
            lemma_read_record_advances(s@, pos as int);
        }
        match read_record_at(s, pos) {
            None => return None,
            Some(Err(e)) => return Some(Err(e)),
            Some(Ok((entry, next))) => {
                match entry {
                    Some((k, v)) => {
                        m.insert(k, v);
                    },
                    None => {},
                }
                pos = next;
            },
        }
    }
    Some(Ok(m))
}

/// Reads a property file, or says why it cannot be read.
pub fn parse_properties(s: &[u8]) -> (r: Result<PropertyMap, ParseError>)
    requires
        parse(s@) is Some,
    ensures
        match r {
            Err(e) => parse(s@) == Some(Err::<Seq<(Seq<char>, PropertyView)>, ParseError>(e)),
            Ok(m) => parse(s@) == Some(Ok::<Seq<(Seq<char>, PropertyView)>, ParseError>(m@)),
        },
{
    match try_parse_properties(s) {
        Some(r) => r,
        None => Err(ParseError::UnexpectedEof),
    }
}

} // verus!
