//! What reading a whole file gives: one entry for each record whose data
//! length is not zero, and for each name the value of its last such record.

use crate::format::{
    lemma_read_record_advances, parse, parse_from, read_record, read_text, skip_end, ParseError,
    RECORD_TAG, TYPE_STRING,
};
use crate::le::u32_at;
use crate::text::split_commas;
use crate::property::{
    distinct_keys, lemma_with_entry_distinct, lookup, with_entry, PropertyView,
};
use vstd::prelude::*;

verus! {

/// The entries that the records of a file set from position `pos` on, in
/// the file's order: one for each record whose data length is not zero.
/// `None` and errors as [`parse`] gives them.
pub open spec fn entries_from(s: Seq<u8>, pos: int) -> Option<
    Result<Seq<(Seq<char>, PropertyView)>, ParseError>,
>
    decreases s.len() - pos,
{
    if pos < 0 || pos >= s.len() {
        Some(Ok(Seq::empty()))
    } else {
        match read_record(s, pos) {
            None => None,
            Some(Err(e)) => Some(Err(e)),
            Some(Ok((entry, next))) => {
                proof {
                    lemma_read_record_advances(s, pos);
                }
                match entries_from(s, next) {
                    None => None,
                    Some(Err(e)) => Some(Err(e)),
                    Some(Ok(rest)) => Some(
                        Ok(
                            match entry {
                                Some(e) => seq![e] + rest,
                                None => rest,
                            },
                        ),
                    ),
                }
            },
        }
    }
}

/// The entries that the records of a file set, in the file's order.
pub open spec fn entries(s: Seq<u8>) -> Option<Result<Seq<(Seq<char>, PropertyView)>, ParseError>> {
    entries_from(s, 0)
}

/// `acc` after setting each entry of `es` in turn.
pub open spec fn set_all(acc: Seq<(Seq<char>, PropertyView)>, es: Seq<(Seq<char>, PropertyView)>) -> Seq<
    (Seq<char>, PropertyView),
>
    decreases es.len(),
{
    if es.len() == 0 {
        acc
    } else {
        set_all(with_entry(acc, es[0].0, es[0].1), es.drop_first())
    }
}

/// The value of the last entry of `es` named `k`, if any.
pub open spec fn last_value(es: Seq<(Seq<char>, PropertyView)>, k: Seq<char>) -> Option<PropertyView>
    decreases es.len(),
{
    if es.len() == 0 {
        None
    } else {
        match last_value(es.drop_first(), k) {
            Some(v) => Some(v),
            None => if es[0].0 == k {
                Some(es[0].1)
            } else {
                None
            },
        }
    }
}

proof fn lemma_parse_from_entries(s: Seq<u8>, pos: int, acc: Seq<(Seq<char>, PropertyView)>)
    ensures
        parse_from(s, pos, acc) == match entries_from(s, pos) {
            None => None,
            Some(Err(e)) => Some(Err(e)),
            Some(Ok(es)) => Some(Ok::<Seq<(Seq<char>, PropertyView)>, ParseError>(set_all(acc, es))),
        },
    decreases s.len() - pos,
{
    if 0 <= pos < s.len() {
        lemma_read_record_advances(s, pos);
        match read_record(s, pos) {
            Some(Ok((entry, next))) => {
                let acc2 = match entry {
                    Some((k, v)) => with_entry(acc, k, v),
                    None => acc,
                };
                lemma_parse_from_entries(s, next, acc2);
                match entries_from(s, next) {
                    Some(Ok(rest)) => {
                        match entry {
                            Some(e) => {
                                assert((seq![e] + rest).drop_first() =~= rest);
                            },
                            None => {},
                        }
                    },
                    _ => {},
                }
            },
            _ => {},
        }
    } else {
        assert(set_all(acc, Seq::empty()) == acc);
    }
}

/// Setting each entry in turn keeps names distinct, and leaves each name
/// with the value of its last entry, or its earlier value where it has
/// none.
pub proof fn lemma_set_all(acc: Seq<(Seq<char>, PropertyView)>, es: Seq<(Seq<char>, PropertyView)>)
    requires
        distinct_keys(acc),
    ensures
        distinct_keys(set_all(acc, es)),
        forall|k: Seq<char>|
            lookup(#[trigger] set_all(acc, es), k) == match last_value(es, k) {
                Some(v) => Some(v),
                None => lookup(acc, k),
            },
    decreases es.len(),
{
    if es.len() > 0 {
        let acc2 = with_entry(acc, es[0].0, es[0].1);
        lemma_with_entry_distinct(acc, es[0].0, es[0].1);
        lemma_set_all(acc2, es.drop_first());
    }
}

/// Reading a whole file: it succeeds exactly where reading each record
/// does, and then holds one name for each record whose data length is not
/// zero, with the value of the last such record of that name.
pub proof fn theorem_read_keeps_last_record(s: Seq<u8>)
    ensures
        parse(s) == match entries(s) {
            None => None,
            Some(Err(e)) => Some(Err(e)),
            Some(Ok(es)) => Some(
                Ok::<Seq<(Seq<char>, PropertyView)>, ParseError>(set_all(Seq::empty(), es)),
            ),
        },
        entries(s) matches Some(Ok(es)) ==> forall|k: Seq<char>|
            lookup(#[trigger] set_all(Seq::empty(), es), k) == last_value(es, k),
{
    lemma_parse_from_entries(s, 0, Seq::empty());
    if let Some(Ok(es)) = entries(s) {
        lemma_set_all(Seq::empty(), es);
        assert forall|k: Seq<char>| lookup(#[trigger] set_all(Seq::empty(), es), k) == last_value(es, k) by {
            crate::property::lemma_key_index(Seq::<(Seq<char>, PropertyView)>::empty(), k);
        }
    }
}

/// A text record is read by its name: under one of the names
/// `CombatSelects`, `CombatSkills`, `SkillPoints`, `SpellFavorites` and
/// `SpellSkills` its text is split at its commas into a list, under any
/// other name it stays a text.
pub proof fn theorem_text_records_by_name(s: Seq<u8>, pos: int)
    requires
        0 <= pos < s.len(),
        s[pos] == RECORD_TAG,
        read_text(s, pos + 1) is Ok,
    ensures
        ({
            let (k, p) = read_text(s, pos + 1)->Ok_0;
            (p + 4 < s.len() && u32_at(s, p) != 0 && s[p + 4] == TYPE_STRING && read_text(
                s,
                p + 5,
            ) is Ok) ==> {
                let (t, r) = read_text(s, p + 5)->Ok_0;
                read_record(s, pos) == Some(
                    Ok::<(Option<(Seq<char>, PropertyView)>, int), ParseError>(
                        (
                            Some(
                                (
                                    k,
                                    if k == "CombatSelects"@ || k == "CombatSkills"@ || k
                                        == "SkillPoints"@ || k == "SpellFavorites"@ || k
                                        == "SpellSkills"@ {
                                        PropertyView::List(split_commas(t))
                                    } else {
                                        PropertyView::String(t)
                                    },
                                ),
                            ),
                            skip_end(s, r),
                        ),
                    ),
                )
            }
        }),
{
}

} // verus!
