//! Text helpers: UTF-8 decoding, comma-separated lists and unsigned decimal
//! numbers.

use vstd::prelude::*;
use vstd::utf8::{decode_utf8, encode_utf8, valid_utf8};

verus! {

broadcast use vstd::utf8::encode_utf8_decode_utf8, vstd::utf8::encode_utf8_valid_utf8;

/// The pieces of `s` between its commas, in order; a text without commas is
/// one piece, and a comma at either end gives an empty piece there.
pub open spec fn split_commas(s: Seq<char>) -> Seq<Seq<char>>
    decreases s.len(),
{
    if s.len() == 0 {
        seq![Seq::<char>::empty()]
    } else {
        let rest = split_commas(s.drop_first());
        if s[0] == ',' {
            seq![Seq::<char>::empty()] + rest
        } else {
            rest.update(0, seq![s[0]] + rest[0])
        }
    }
}

/// The items joined with a comma between each two.
pub open spec fn join_commas(items: Seq<Seq<char>>) -> Seq<char>
    decreases items.len(),
{
    if items.len() == 0 {
        Seq::<char>::empty()
    } else if items.len() == 1 {
        items[0]
    } else {
        items[0] + seq![','] + join_commas(items.drop_first())
    }
}

/// The views of a list of strings.
pub open spec fn views(items: Seq<String>) -> Seq<Seq<char>> {
    items.map_values(|s: String| s@)
}

/// Decodes `bytes` with `std::str::from_utf8`, whose documentation states
/// that it succeeds exactly on valid UTF-8, and copies the result into a
/// `String`.
#[verifier::external_body]
pub(crate) fn utf8_string(bytes: &[u8]) -> (r: Option<String>)
    ensures
        r is Some <==> valid_utf8(bytes@),
        r matches Some(s) ==> s@ == decode_utf8(bytes@),
{
    match std::str::from_utf8(bytes) {
        Ok(s) => Some(s.to_string()),
        Err(_) => None,
    }
}

/// Splits `s` at its commas with `str::split`, whose documentation states
/// that it yields the pieces between the separators, in order, including
/// empty ones.
#[verifier::external_body]
pub(crate) fn split_list(s: &str) -> (r: Vec<String>)
    ensures
        views(r@) == split_commas(s@),
{
    s.split(",").map(String::from).collect()
}

/// Joins the items with a comma between each two.
pub fn join_list(items: &Vec<String>) -> (r: String)
    ensures
        r@ == join_commas(views(items@)),
{
    let mut r = String::new();
    if items.len() == 0 {
        return r;
    }
    r.append(items[0].as_str());
    let comma = ",";
    proof {
        reveal_strlit(",");
    }
    let mut i: usize = 1;
    while i < items.len()
        invariant
            1 <= i <= items.len(),
            comma@ == seq![','],
            r@ == join_commas(views(items@.take(i as int))),
        decreases items.len() - i,
    {
        proof {
            lemma_join_push(views(items@.take(i as int)), items@[i as int]@);
            assert(views(items@.take(i as int)).push(items@[i as int]@) == views(
                items@.take(i + 1),
            ));
        }
        r.append(comma);
        r.append(items[i].as_str());
        i = i + 1;
    }
    assert(items@.take(i as int) == items@);
    r
}

/// Joining one more item appends a comma and the item.
pub proof fn lemma_join_push(items: Seq<Seq<char>>, x: Seq<char>)
    requires
        items.len() >= 1,
    ensures
        join_commas(items.push(x)) == join_commas(items) + seq![','] + x,
    decreases items.len(),
{
    let ys = items.push(x);
    assert(ys[0] == items[0]);
    if items.len() == 1 {
        assert(ys.drop_first() =~= seq![x]);
        assert(join_commas(seq![x]) == x);
    } else {
        lemma_join_push(items.drop_first(), x);
        assert(ys.drop_first() =~= items.drop_first().push(x));
        assert(join_commas(ys) == items[0] + seq![','] + (join_commas(items.drop_first()) + seq![',']
            + x));
        assert(items[0] + seq![','] + (join_commas(items.drop_first()) + seq![','] + x) =~= (items[0]
            + seq![','] + join_commas(items.drop_first())) + seq![','] + x);
    }
}

/// A text without commas is a single piece.
pub proof fn lemma_split_plain(a: Seq<char>)
    requires
        !a.contains(','),
    ensures
        split_commas(a) == seq![a],
    decreases a.len(),
{
    if a.len() > 0 {
        assert(!a.drop_first().contains(',')) by {
            if a.drop_first().contains(',') {
                let i = choose|i: int| 0 <= i < a.drop_first().len() && a.drop_first()[i] == ',';
                assert(a[i + 1] == ',');
            }
        }
        assert(a[0] != ',') by {
            if a[0] == ',' {
                assert(a.contains(','));
            }
        }
        lemma_split_plain(a.drop_first());
        assert(seq![a[0]] + a.drop_first() =~= a);
        assert(split_commas(a) =~= seq![a]);
    } else {
        assert(a =~= Seq::<char>::empty());
        assert(split_commas(a) =~= seq![a]);
    }
}

/// A text without commas followed by a comma starts a new piece.
pub proof fn lemma_split_prefix(a: Seq<char>, b: Seq<char>)
    requires
        !a.contains(','),
    ensures
        split_commas(a + seq![','] + b) == seq![a] + split_commas(b),
    decreases a.len(),
{
    let s = a + seq![','] + b;
    if a.len() == 0 {
        assert(s[0] == ',');
        assert(s.drop_first() =~= b);
        assert(a =~= Seq::<char>::empty());
        assert(split_commas(s) =~= seq![a] + split_commas(b));
    } else {
        assert(!a.drop_first().contains(',')) by {
            if a.drop_first().contains(',') {
                let i = choose|i: int| 0 <= i < a.drop_first().len() && a.drop_first()[i] == ',';
                assert(a[i + 1] == ',');
            }
        }
        assert(a[0] != ',') by {
            if a[0] == ',' {
                assert(a.contains(','));
            }
        }
        lemma_split_prefix(a.drop_first(), b);
        assert(s.drop_first() =~= a.drop_first() + seq![','] + b);
        assert(s[0] == a[0]);
        assert(seq![a[0]] + a.drop_first() =~= a);
        assert(split_commas(s) =~= seq![a] + split_commas(b));
    }
}

/// Splitting a joined list gives the list back when it has an item and no
/// item holds a comma.
pub proof fn lemma_split_join(items: Seq<Seq<char>>)
    requires
        items.len() >= 1,
        forall|i: int| 0 <= i < items.len() ==> !(#[trigger] items[i]).contains(','),
    ensures
        split_commas(join_commas(items)) == items,
    decreases items.len(),
{
    if items.len() == 1 {
        lemma_split_plain(items[0]);
    } else {
        let rest = items.drop_first();
        assert forall|i: int| 0 <= i < rest.len() implies !(#[trigger] rest[i]).contains(',') by {
            assert(rest[i] == items[i + 1]);
        }
        lemma_split_join(rest);
        lemma_split_prefix(items[0], join_commas(rest));
        assert(seq![items[0]] + rest == items);
    }
}

/// The value of a run of decimal digits.
pub open spec fn digits_value(s: Seq<u8>) -> nat
    decreases s.len(),
{
    if s.len() == 0 {
        0
    } else {
        digits_value(s.drop_last()) * 10 + (s.last() - 48) as nat
    }
}

/// Every byte is a decimal digit.
pub open spec fn all_digits(s: Seq<u8>) -> bool {
    forall|i: int| 0 <= i < s.len() ==> 48 <= #[trigger] s[i] <= 57
}

/// The bytes after an optional leading `+`.
pub open spec fn unsigned_digits(s: Seq<u8>) -> Seq<u8> {
    if s.len() > 0 && s[0] == 43 {
        s.drop_first()
    } else {
        s
    }
}

/// The unsigned number that `s` writes in decimal, with an optional leading
/// `+`, if it is at most `max`.
pub open spec fn parse_unsigned(s: Seq<u8>, max: nat) -> Option<nat> {
    let d = unsigned_digits(s);
    if d.len() > 0 && all_digits(d) && digits_value(d) <= max {
        Some(digits_value(d))
    } else {
        None
    }
}

/// Reads an unsigned decimal number of at most `max`.
pub fn parse_decimal(s: &str, max: u64) -> (r: Option<u64>)
    ensures
        match r {
            Some(v) => parse_unsigned(encode_utf8(s@), max as nat) == Some(v as nat),
            None => parse_unsigned(encode_utf8(s@), max as nat) is None,
        },
{
    let b = s.as_bytes();
    let ghost full = b@;
    let start: usize = if b.len() > 0 && b[0] == 43 {
        1
    } else {
        0
    };
    let ghost d = unsigned_digits(full);
    assert(d == full.subrange(start as int, full.len() as int));
    if start == b.len() {
        return None;
    }
    let mut v: u64 = 0;
    let mut i: usize = start;
    while i < b.len()
        invariant
            start <= i <= b@.len(),
            b@ == full,
            full == encode_utf8(s@),
            d == unsigned_digits(full),
            d.len() > 0,
            d == full.subrange(start as int, full.len() as int),
            all_digits(full.subrange(start as int, i as int)),
            v as nat == digits_value(full.subrange(start as int, i as int)),
            v <= max,
        decreases b.len() - i,
    {
        let c: u8 = b[i];
        let ghost pre = full.subrange(start as int, i as int);
        let ghost next = full.subrange(start as int, i + 1);
        assert(next.drop_last() == pre);
        assert(next.last() == c);
        if c < 48 || c > 57 {
            assert(d[i - start] == c);
            assert(!all_digits(d));
            return None;
        }
        let digit: u64 = (c - 48) as u64;
        if digit > max || v > (max - digit) / 10 {
            proof {
                if digit <= max {
                    assert(v * 10 + digit > max) by (nonlinear_arith)
                        requires
                            v > (max - digit) / 10,
                            digit <= max,
                    ;
                }
                assert(digits_value(next) == v * 10 + digit);
                if all_digits(d) {
                    lemma_digits_monotone(d, (i + 1 - start) as int);
                    assert(d.subrange(0, (i + 1 - start) as int) =~= next);
                }
            }
            return None;
        }
        assert(v * 10 + digit <= max) by (nonlinear_arith)
            requires v <= (max - digit) / 10, digit <= max;
        v = v * 10 + digit;
        i = i + 1;
    }
    assert(full.subrange(start as int, i as int) == d);
    Some(v)
}

/// A run of digits is worth at least any of its prefixes.
pub proof fn lemma_digits_monotone(d: Seq<u8>, k: int)
    requires
        0 <= k <= d.len(),
        all_digits(d),
    ensures
        digits_value(d.subrange(0, k)) <= digits_value(d),
    decreases d.len(),
{
    if k == d.len() {
        assert(d.subrange(0, k) =~= d);
    } else {
        let p = d.drop_last();
        assert(all_digits(p)) by {
            assert forall|i: int| 0 <= i < p.len() implies 48 <= #[trigger] p[i] <= 57 by {
                assert(p[i] == d[i]);
            }
        }
        lemma_digits_monotone(p, k);
        assert(p.subrange(0, k) =~= d.subrange(0, k));
        assert(digits_value(p) <= digits_value(p) * 10) by (nonlinear_arith);
    }
}

/// Whether two texts are equal.
pub fn same_text(a: &str, b: &str) -> (r: bool)
    ensures
        r == (a@ == b@),
{
    let x = a.as_bytes();
    let y = b.as_bytes();
    proof {
        vstd::utf8::encode_utf8_decode_utf8(a@);
        vstd::utf8::encode_utf8_decode_utf8(b@);
    }
    if x.len() != y.len() {
        return false;
    }
    let mut i: usize = 0;
    while i < x.len()
        invariant
            x@.len() == y@.len(),
            x@ == encode_utf8(a@),
            y@ == encode_utf8(b@),
            i <= x@.len(),
            forall|j: int| 0 <= j < i ==> x@[j] == y@[j],
        decreases x.len() - i,
    {
        if x[i] != y[i] {
            return false;
        }
        i = i + 1;
    }
    assert(x@ == y@);
    true
}

} // verus!
