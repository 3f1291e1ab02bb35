//! Edits of a party member's properties: the skill points list, the
//! values bound to the editor's fields, and the validation that runs before a
//! save, which keeps the member's selected skills among the skills the
//! member has learned.

use crate::property::{
    distinct_keys, lemma_with_entry_distinct, lemma_with_entry_same, lookup, with_entry, Property,
    PropertyMap, PropertyView,
};
use crate::skills::SkillTable;
use crate::text::{
    all_digits, digits_value, parse_decimal, parse_unsigned, same_text, split_commas, split_list,
    views,
};
use vstd::prelude::*;
use vstd::utf8::encode_utf8;

verus! {

/// The number of entries of a complete skill points list.
pub const SKILL_SLOTS: usize = 115;

/// The number of combat skills a member selects.
pub const COMBAT_SELECTS: usize = 3;

/// The number of spells a member keeps as favorites.
pub const SPELL_FAVORITES: usize = 10;

/// The unsigned number a text writes in decimal, if it fits in 32 bits.
pub open spec fn points_value(t: Seq<char>) -> Option<nat> {
    parse_unsigned(encode_utf8(t), u32::MAX as nat)
}

/// Whether the skill at position `i` of the points list counts as a learned
/// combat skill: positions 7 to 61 whose points are a number above zero.
pub open spec fn counts_as_combat(i: int, t: Seq<char>) -> bool {
    &&& 7 <= i <= 61
    &&& points_value(t) matches Some(n) && n > 0
}

/// Whether the skill at position `i` of the points list counts as a learned
/// spell for a member of spell grade `grade`: positions 62 to 72, 73 to 86
/// and 87 to 114 whose points are a number, and either above zero or the
/// grade at least 1, 2 and 3 respectively.
pub open spec fn counts_as_spell(i: int, t: Seq<char>, grade: nat) -> bool {
    points_value(t) matches Some(n) && ((62 <= i <= 72 && (n > 0 || grade >= 1)) || (73 <= i
        <= 86 && (n > 0 || grade >= 2)) || (87 <= i <= 114 && (n > 0 || grade >= 3)))
}

/// The game's names of the combat skills that the points list shows
/// learned, in the list's order, among the skills the table knows.
pub open spec fn combat_skills(points: Seq<Seq<char>>, skills: Map<usize, (Seq<char>, Seq<char>)>) -> Seq<
    Seq<char>,
>
    decreases points.len(),
{
    if points.len() == 0 {
        Seq::empty()
    } else {
        let rest = combat_skills(points.drop_last(), skills);
        let i = points.len() - 1;
        if counts_as_combat(i, points[i]) && skills.contains_key(i as usize) {
            rest.push(skills[i as usize].1)
        } else {
            rest
        }
    }
}

/// The game's names of the spells that the points list shows learned for
/// spell grade `grade`, in the list's order, among the skills the table
/// knows.
pub open spec fn spell_skills(
    points: Seq<Seq<char>>,
    skills: Map<usize, (Seq<char>, Seq<char>)>,
    grade: nat,
) -> Seq<Seq<char>>
    decreases points.len(),
{
    if points.len() == 0 {
        Seq::empty()
    } else {
        let rest = spell_skills(points.drop_last(), skills, grade);
        let i = points.len() - 1;
        if counts_as_spell(i, points[i], grade) && skills.contains_key(i as usize) {
            rest.push(skills[i as usize].1)
        } else {
            rest
        }
    }
}

/// The member's skill points list, or none.
pub open spec fn skill_points(m: Seq<(Seq<char>, PropertyView)>) -> Seq<Seq<char>> {
    match lookup(m, "SkillPoints"@) {
        Some(PropertyView::List(p)) => p,
        _ => Seq::empty(),
    }
}

/// `v`, extended with `filler` up to `min` items.
pub open spec fn padded(v: Seq<Seq<char>>, min: nat, filler: Seq<char>) -> Seq<Seq<char>> {
    if v.len() >= min {
        v
    } else {
        v + Seq::new((min - v.len()) as nat, |i: int| filler)
    }
}

/// The items of `v` that `allowed` holds, in order, extended with `filler`
/// up to `min` items.
pub open spec fn kept(v: Seq<Seq<char>>, allowed: Seq<Seq<char>>, min: nat, filler: Seq<char>) -> Seq<
    Seq<char>,
> {
    padded(v.filter(|x: Seq<char>| allowed.contains(x)), min, filler)
}

/// The map after keeping, in the list named `k`, the items that `allowed`
/// holds and padding it to `min` items; unchanged where `k` names no list.
pub open spec fn retained(
    m: Seq<(Seq<char>, PropertyView)>,
    k: Seq<char>,
    allowed: Seq<Seq<char>>,
    min: nat,
    filler: Seq<char>,
) -> Seq<(Seq<char>, PropertyView)> {
    match lookup(m, k) {
        Some(PropertyView::List(v)) => with_entry(m, k, PropertyView::List(kept(v, allowed, min, filler))),
        _ => m,
    }
}

/// The IEEE-754 single-precision bit pattern of the grade `level`.
pub open spec fn grade_bits_of(level: nat) -> u32 {
    if level == 0 {
        0
    } else if level == 1 {
        0x3f80_0000
    } else if level == 2 {
        0x4000_0000
    } else {
        0x4040_0000
    }
}

/// The member's properties after the validation before a save, for combat grade
/// `combat` and spell grade `spell`.
pub open spec fn validated(
    m: Seq<(Seq<char>, PropertyView)>,
    skills: Map<usize, (Seq<char>, Seq<char>)>,
    combat: nat,
    spell: nat,
) -> Seq<(Seq<char>, PropertyView)> {
    let points = skill_points(m);
    let cs = combat_skills(points, skills);
    let ss = spell_skills(points, skills, spell);
    let m1 = retained(m, "CombatSelects"@, cs, COMBAT_SELECTS as nat, "Empty"@);
    let m2 = retained(m1, "SpellFavorites"@, ss, SPELL_FAVORITES as nat, ""@);
    let m3 = with_entry(m2, "CombatGrade"@, PropertyView::Float(grade_bits_of(combat)));
    let m4 = with_entry(m3, "CombatSkills"@, PropertyView::List(cs));
    let m5 = with_entry(m4, "SpellGrade"@, PropertyView::Float(grade_bits_of(spell)));
    with_entry(m5, "SpellSkills"@, PropertyView::List(ss))
}

/// The names that the validation before a save reads and writes differ from
/// each other.
proof fn lemma_member_names_differ()
    ensures
        "SkillPoints"@ != "CombatSelects"@,
        "SkillPoints"@ != "SpellFavorites"@,
        "SkillPoints"@ != "CombatGrade"@,
        "SkillPoints"@ != "CombatSkills"@,
        "SkillPoints"@ != "SpellGrade"@,
        "SkillPoints"@ != "SpellSkills"@,
        "CombatSelects"@ != "SpellFavorites"@,
        "CombatSelects"@ != "CombatGrade"@,
        "CombatSelects"@ != "CombatSkills"@,
        "CombatSelects"@ != "SpellGrade"@,
        "CombatSelects"@ != "SpellSkills"@,
        "SpellFavorites"@ != "CombatGrade"@,
        "SpellFavorites"@ != "CombatSkills"@,
        "SpellFavorites"@ != "SpellGrade"@,
        "SpellFavorites"@ != "SpellSkills"@,
        "CombatGrade"@ != "CombatSkills"@,
        "CombatGrade"@ != "SpellGrade"@,
        "CombatGrade"@ != "SpellSkills"@,
        "CombatSkills"@ != "SpellGrade"@,
        "CombatSkills"@ != "SpellSkills"@,
        "SpellGrade"@ != "SpellSkills"@,
{
    reveal_strlit("SkillPoints");
    reveal_strlit("CombatSelects");
    reveal_strlit("SpellFavorites");
    reveal_strlit("CombatGrade");
    reveal_strlit("CombatSkills");
    reveal_strlit("SpellGrade");
    reveal_strlit("SpellSkills");
    assert("SkillPoints"@.len() == 11);
    assert("CombatSelects"@.len() == 13);
    assert("SpellFavorites"@.len() == 14);
    assert("CombatGrade"@.len() == 11);
    assert("CombatSkills"@.len() == 12);
    assert("SpellGrade"@.len() == 10);
    assert("SpellSkills"@.len() == 11);
    assert("SkillPoints"@[0] != "CombatGrade"@[0]);
    assert("SkillPoints"@[1] != "SpellSkills"@[1]);
    assert("CombatGrade"@[0] != "SpellSkills"@[0]);
}

/// Filtering twice is filtering once.
pub proof fn lemma_filter_twice(v: Seq<Seq<char>>, pred: spec_fn(Seq<char>) -> bool)
    ensures
        v.filter(pred).filter(pred) == v.filter(pred),
    decreases v.len(),
{
    reveal(Seq::filter);
    if v.len() > 0 {
        lemma_filter_twice(v.drop_last(), pred);
        let f = v.drop_last().filter(pred);
        if pred(v.last()) {
            assert(f.push(v.last()).drop_last() =~= f);
        }
    }
}

/// Filtering copies of one item keeps all of them or none.
pub proof fn lemma_filter_copies(n: nat, x: Seq<char>, pred: spec_fn(Seq<char>) -> bool)
    ensures
        Seq::new(n, |i: int| x).filter(pred) == if pred(x) {
            Seq::new(n, |i: int| x)
        } else {
            Seq::<Seq<char>>::empty()
        },
    decreases n,
{
    reveal(Seq::filter);
    let s = Seq::new(n, |i: int| x);
    if n > 0 {
        lemma_filter_copies((n - 1) as nat, x, pred);
        assert(s.drop_last() =~= Seq::new((n - 1) as nat, |i: int| x));
        if pred(x) {
            assert(Seq::new((n - 1) as nat, |i: int| x).push(x) =~= s);
        }
    } else {
        assert(s =~= Seq::<Seq<char>>::empty());
    }
}

/// What validation keeps of a list: at least `min` items, each of them in
/// `allowed` or the filler; every item of the list that `allowed` holds is
/// kept, and every kept item other than the filler comes from the list.
pub proof fn lemma_kept_shape(v: Seq<Seq<char>>, allowed: Seq<Seq<char>>, min: nat, filler: Seq<char>)
    ensures
        kept(v, allowed, min, filler).len() >= min,
        forall|i: int|
            0 <= i < kept(v, allowed, min, filler).len() ==> allowed.contains(
                #[trigger] kept(v, allowed, min, filler)[i],
            ) || kept(v, allowed, min, filler)[i] == filler,
        forall|x: Seq<char>|
            v.contains(x) && allowed.contains(x) ==> #[trigger] kept(v, allowed, min, filler).contains(
                x,
            ),
        forall|x: Seq<char>|
            #[trigger] kept(v, allowed, min, filler).contains(x) && x != filler ==> v.contains(x)
                && allowed.contains(x),
{
    let pred = |x: Seq<char>| allowed.contains(x);
    let f = v.filter(pred);
    let r = kept(v, allowed, min, filler);
    assert forall|i: int| 0 <= i < f.len() implies allowed.contains(#[trigger] f[i]) by {
        v.lemma_filter_pred(pred, i);
    }
    lemma_padded_shape(f, min, filler);
    assert forall|x: Seq<char>| v.contains(x) && allowed.contains(x) implies #[trigger] r.contains(
        x,
    ) by {
        lemma_filter_holds(v, pred, x);
        let j = choose|j: int| 0 <= j < f.len() && f[j] == x;
        assert(r[j] == x);
    }
    assert forall|x: Seq<char>| #[trigger] r.contains(x) && x != filler implies v.contains(x)
        && allowed.contains(x) by {
        lemma_filter_holds(v, pred, x);
        let j = choose|j: int| 0 <= j < r.len() && r[j] == x;
        assert(j < f.len());
        assert(f[j] == x);
    }
}

/// Padding keeps the list's items in place and fills with `filler` up to
/// `min` items: the result has the larger of the two lengths.
pub proof fn lemma_padded_shape(v: Seq<Seq<char>>, min: nat, filler: Seq<char>)
    ensures
        padded(v, min, filler).len() == if v.len() >= min {
            v.len()
        } else {
            min
        },
        forall|i: int| 0 <= i < v.len() ==> #[trigger] padded(v, min, filler)[i] == v[i],
        forall|i: int|
            v.len() <= i < padded(v, min, filler).len() ==> #[trigger] padded(v, min, filler)[i]
                == filler,
{
}

/// The constants of a member's lists: 115 skill slots, 3 selected combat
/// skills and 10 favorite spells.
pub proof fn lemma_member_constants()
    ensures
        SKILL_SLOTS == 115,
        COMBAT_SELECTS == 3,
        SPELL_FAVORITES == 10,
{
}

/// Keeping twice is keeping once.
pub proof fn lemma_kept_twice(v: Seq<Seq<char>>, allowed: Seq<Seq<char>>, min: nat, filler: Seq<char>)
    ensures
        kept(kept(v, allowed, min, filler), allowed, min, filler) == kept(v, allowed, min, filler),
{
    let pred = |x: Seq<char>| allowed.contains(x);
    let f = v.filter(pred);
    lemma_filter_twice(v, pred);
    if f.len() < min {
        let fill = Seq::new((min - f.len()) as nat, |i: int| filler);
        Seq::filter_distributes_over_add(f, fill, pred);
        lemma_filter_copies((min - f.len()) as nat, filler, pred);
        if !pred(filler) {
            assert(f + Seq::<Seq<char>>::empty() =~= f);
        }
    }
}

/// The outcome of the validation before a save: the names stay distinct; the
/// learned combat skills and spells, worked out from the skill points
/// list, and the grades are recorded; the skill points list is unchanged;
/// a list of selected combat skills, or of favorite spells, is the one
/// that keeping the learned items gives, and afterwards holds at least
/// three (ten) items, each a learned skill (spell) or the filler.
pub proof fn theorem_validation_outcome(
    m: Seq<(Seq<char>, PropertyView)>,
    skills: Map<usize, (Seq<char>, Seq<char>)>,
    combat: nat,
    spell: nat,
)
    requires
        distinct_keys(m),
    ensures
        ({
            let r = validated(m, skills, combat, spell);
            let cs = combat_skills(skill_points(m), skills);
            let ss = spell_skills(skill_points(m), skills, spell);
            &&& distinct_keys(r)
            &&& lookup(r, "CombatSkills"@) == Some(PropertyView::List(cs))
            &&& lookup(r, "SpellSkills"@) == Some(PropertyView::List(ss))
            &&& lookup(r, "CombatGrade"@) == Some(PropertyView::Float(grade_bits_of(combat)))
            &&& lookup(r, "SpellGrade"@) == Some(PropertyView::Float(grade_bits_of(spell)))
            &&& lookup(r, "SkillPoints"@) == lookup(m, "SkillPoints"@)
            &&& lookup(r, "CombatSelects"@) == match lookup(m, "CombatSelects"@) {
                Some(PropertyView::List(v)) => Some(
                    PropertyView::List(kept(v, cs, COMBAT_SELECTS as nat, "Empty"@)),
                ),
                other => other,
            }
            &&& lookup(r, "SpellFavorites"@) == match lookup(m, "SpellFavorites"@) {
                Some(PropertyView::List(v)) => Some(
                    PropertyView::List(kept(v, ss, SPELL_FAVORITES as nat, ""@)),
                ),
                other => other,
            }
            &&& lookup(r, "CombatSelects"@) matches Some(PropertyView::List(v)) ==> {
                &&& v.len() >= COMBAT_SELECTS
                &&& forall|i: int| 0 <= i < v.len() ==> cs.contains(#[trigger] v[i]) || v[i] == "Empty"@
            }
            &&& lookup(r, "SpellFavorites"@) matches Some(PropertyView::List(v)) ==> {
                &&& v.len() >= SPELL_FAVORITES
                &&& forall|i: int| 0 <= i < v.len() ==> ss.contains(#[trigger] v[i]) || v[i] == ""@
            }
        }),
{
    lemma_member_names_differ();
    let points = skill_points(m);
    let cs = combat_skills(points, skills);
    let ss = spell_skills(points, skills, spell);
    let m1 = retained(m, "CombatSelects"@, cs, COMBAT_SELECTS as nat, "Empty"@);
    match lookup(m, "CombatSelects"@) {
        Some(PropertyView::List(v)) => {
            lemma_with_entry_distinct(m, "CombatSelects"@, PropertyView::List(kept(v, cs, COMBAT_SELECTS as nat, "Empty"@)));
            lemma_kept_shape(v, cs, COMBAT_SELECTS as nat, "Empty"@);
        },
        _ => {},
    }
    let m2 = retained(m1, "SpellFavorites"@, ss, SPELL_FAVORITES as nat, ""@);
    match lookup(m1, "SpellFavorites"@) {
        Some(PropertyView::List(v)) => {
            lemma_with_entry_distinct(m1, "SpellFavorites"@, PropertyView::List(kept(v, ss, SPELL_FAVORITES as nat, ""@)));
            lemma_kept_shape(v, ss, SPELL_FAVORITES as nat, ""@);
        },
        _ => {},
    }
    let m3 = with_entry(m2, "CombatGrade"@, PropertyView::Float(grade_bits_of(combat)));
    lemma_with_entry_distinct(m2, "CombatGrade"@, PropertyView::Float(grade_bits_of(combat)));
    let m4 = with_entry(m3, "CombatSkills"@, PropertyView::List(cs));
    lemma_with_entry_distinct(m3, "CombatSkills"@, PropertyView::List(cs));
    let m5 = with_entry(m4, "SpellGrade"@, PropertyView::Float(grade_bits_of(spell)));
    lemma_with_entry_distinct(m4, "SpellGrade"@, PropertyView::Float(grade_bits_of(spell)));
    lemma_with_entry_distinct(m5, "SpellSkills"@, PropertyView::List(ss));
}

/// Validating a second time changes nothing: the validation before a save is
/// idempotent.
pub proof fn theorem_validation_idempotent(
    m: Seq<(Seq<char>, PropertyView)>,
    skills: Map<usize, (Seq<char>, Seq<char>)>,
    combat: nat,
    spell: nat,
)
    requires
        distinct_keys(m),
    ensures
        validated(validated(m, skills, combat, spell), skills, combat, spell) == validated(
            m,
            skills,
            combat,
            spell,
        ),
{
    lemma_member_names_differ();
    theorem_validation_outcome(m, skills, combat, spell);
    let r = validated(m, skills, combat, spell);
    let points = skill_points(m);
    let cs = combat_skills(points, skills);
    let ss = spell_skills(points, skills, spell);
    assert(skill_points(r) == points);
    let r1 = retained(r, "CombatSelects"@, cs, COMBAT_SELECTS as nat, "Empty"@);
    match lookup(m, "CombatSelects"@) {
        Some(PropertyView::List(v)) => {
            lemma_kept_twice(v, cs, COMBAT_SELECTS as nat, "Empty"@);
            lemma_with_entry_same(r, "CombatSelects"@, PropertyView::List(kept(v, cs, COMBAT_SELECTS as nat, "Empty"@)));
        },
        _ => {},
    }
    assert(r1 == r);
    let r2 = retained(r1, "SpellFavorites"@, ss, SPELL_FAVORITES as nat, ""@);
    match lookup(m, "SpellFavorites"@) {
        Some(PropertyView::List(v)) => {
            lemma_kept_twice(v, ss, SPELL_FAVORITES as nat, ""@);
            lemma_with_entry_same(r, "SpellFavorites"@, PropertyView::List(kept(v, ss, SPELL_FAVORITES as nat, ""@)));
        },
        _ => {},
    }
    assert(r2 == r);
    lemma_with_entry_same(r, "CombatGrade"@, PropertyView::Float(grade_bits_of(combat)));
    lemma_with_entry_same(r, "CombatSkills"@, PropertyView::List(cs));
    lemma_with_entry_same(r, "SpellGrade"@, PropertyView::Float(grade_bits_of(spell)));
    lemma_with_entry_same(r, "SpellSkills"@, PropertyView::List(ss));
}

/// The points a text gives are its unsigned decimal value when that fits in
/// 32 bits: every run of ASCII digits, with an optional leading `+`, whose
/// value is at most 4294967295 gives that value, and no other text gives
/// one.
pub proof fn theorem_points_are_u32_decimals(t: Seq<char>)
    ensures
        points_value(t) == parse_unsigned(encode_utf8(t), 4294967295),
        ({
            let b = encode_utf8(t);
            let d = if b.len() > 0 && b[0] == 43 {
                b.drop_first()
            } else {
                b
            };
            (d.len() > 0 && all_digits(d) && digits_value(d) <= 4294967295) ==> points_value(t)
                == Some(digits_value(d))
        }),
        points_value(t) matches Some(n) ==> n <= 4294967295,
{
}

/// How the skill at the next position of the points list adds to the
/// learned combat skills: positions 7 to 61 whose points are a number above
/// zero, where the table knows the skill.
pub proof fn theorem_combat_positions(
    points: Seq<Seq<char>>,
    skills: Map<usize, (Seq<char>, Seq<char>)>,
    t: Seq<char>,
)
    ensures
        ({
            let i = points.len();
            let learned = 7 <= i <= 61 && points_value(t) is Some && points_value(t)->0 > 0;
            combat_skills(points.push(t), skills) == if learned && skills.contains_key(i as usize) {
                combat_skills(points, skills).push(skills[i as usize].1)
            } else {
                combat_skills(points, skills)
            }
        }),
{
    assert(points.push(t).drop_last() =~= points);
}

/// How the skill at the next position of the points list adds to the
/// learned spells for spell grade `grade`: the first circle, positions 62
/// to 72, needs points above zero or grade 1; the second, 73 to 86, points
/// above zero or grade 2; the third, 87 to 114, points above zero or grade
/// 3; the points must be a number, and the table must know the skill.
pub proof fn theorem_spell_circles(
    points: Seq<Seq<char>>,
    skills: Map<usize, (Seq<char>, Seq<char>)>,
    grade: nat,
    t: Seq<char>,
)
    ensures
        ({
            let i = points.len();
            let learned = points_value(t) is Some && {
                let n = points_value(t)->0;
                ||| 62 <= i <= 72 && (n > 0 || grade >= 1)
                ||| 73 <= i <= 86 && (n > 0 || grade >= 2)
                ||| 87 <= i <= 114 && (n > 0 || grade >= 3)
            };
            spell_skills(points.push(t), skills, grade) == if learned && skills.contains_key(
                i as usize,
            ) {
                spell_skills(points, skills, grade).push(skills[i as usize].1)
            } else {
                spell_skills(points, skills, grade)
            }
        }),
{
    assert(points.push(t).drop_last() =~= points);
}

/// A filtered sequence holds exactly the items of the sequence that pass.
proof fn lemma_filter_holds(v: Seq<Seq<char>>, pred: spec_fn(Seq<char>) -> bool, x: Seq<char>)
    ensures
        v.filter(pred).contains(x) <==> (v.contains(x) && pred(x)),
    decreases v.len(),
{
    reveal(Seq::filter);
    if v.len() > 0 {
        let p = v.drop_last();
        lemma_filter_holds(p, pred, x);
        let f = p.filter(pred);
        if v.contains(x) {
            let i = choose|i: int| 0 <= i < v.len() && v[i] == x;
            if i < v.len() - 1 {
                assert(p[i] == x);
            }
        }
        if p.contains(x) {
            let i = choose|i: int| 0 <= i < p.len() && p[i] == x;
            assert(v[i] == x);
        }
        if pred(v.last()) {
            if f.push(v.last()).contains(x) && x != v.last() {
                let j = choose|j: int| 0 <= j < f.push(v.last()).len() && f.push(v.last())[j] == x;
                assert(f[j] == x);
            }
            if f.contains(x) {
                let j = choose|j: int| 0 <= j < f.len() && f[j] == x;
                assert(f.push(v.last())[j] == x);
            }
            assert(f.push(v.last())[f.len() as int] == v.last());
        }
        assert(v[v.len() - 1] == v.last());
    } else {
        assert(v.filter(pred) =~= v);
    }
}

/// The party's ids are the pieces of the game's `PartyIDs` text between its
/// commas that are not `0`: every other piece is kept, in order, and none
/// is added.
pub proof fn theorem_party_ids(game: Seq<(Seq<char>, PropertyView)>)
    ensures
        lookup(game, "PartyIDs"@) matches Some(PropertyView::String(ids)) ==> {
            &&& forall|x: Seq<char>| #[trigger] party_ids_of(game).contains(x) <==> (split_commas(
                ids,
            ).contains(x) && x != "0"@)
            &&& party_ids_of(game) == split_commas(ids).filter(|x: Seq<char>| x != "0"@)
        },
        !(lookup(game, "PartyIDs"@) matches Some(PropertyView::String(_))) ==> party_ids_of(game)
            == Seq::<Seq<char>>::empty(),
{
    if let Some(PropertyView::String(ids)) = lookup(game, "PartyIDs"@) {
        let pred = |x: Seq<char>| x != "0"@;
        assert forall|x: Seq<char>| #[trigger] party_ids_of(game).contains(x) <==> (split_commas(
            ids,
        ).contains(x) && x != "0"@) by {
            lemma_filter_holds(split_commas(ids), pred, x);
        }
    }
}

/// The IEEE-754 single-precision bit pattern of the grade `level`, one of
/// 0.0, 1.0, 2.0 and 3.0.
pub fn grade_bits(level: u32) -> (bits: u32)
    requires
        level <= 3,
    ensures
        bits == grade_bits_of(level as nat),
{
    if level == 0 {
        0
    } else if level == 1 {
        0x3f80_0000
    } else if level == 2 {
        0x4000_0000
    } else {
        0x4040_0000
    }
}

fn copy_list(v: &Vec<String>) -> (r: Vec<String>)
    ensures
        views(r@) == views(v@),
{
    let mut r: Vec<String> = Vec::new();
    let mut i: usize = 0;
    while i < v.len()
        invariant
            i <= v@.len(),
            r@.len() == i,
            views(r@) == views(v@.take(i as int)),
        decreases v@.len() - i,
    {
        let ghost before = r@;
        let c = v[i].clone();
        assert(c@ == v@[i as int]@);
        r.push(c);
        assert(r@ == before.push(c));
        assert forall|j: int| 0 <= j < i + 1 implies views(r@)[j] == views(v@.take(i + 1))[j] by {
            if j < i {
                assert(views(r@)[j] == before[j]@);
                assert(views(v@.take(i as int))[j] == v@[j]@);
            }
        }
        assert(views(r@) =~= views(v@.take(i + 1)));
        i = i + 1;
    }
    assert(v@.take(i as int) =~= v@);
    r
}

fn list_holds(v: &Vec<String>, x: &String) -> (b: bool)
    ensures
        b == views(v@).contains(x@),
{
    let mut i: usize = 0;
    while i < v.len()
        invariant
            i <= v@.len(),
            forall|j: int| 0 <= j < i ==> v@[j]@ != x@,
        decreases v@.len() - i,
    {
        if v[i] == *x {
            assert(views(v@)[i as int] == x@);
            return true;
        }
        i = i + 1;
    }
    assert forall|j: int| 0 <= j < views(v@).len() implies views(v@)[j] != x@ by {
        assert(views(v@)[j] == v@[j]@);
    }
    false
}

fn pad_items(v: &mut Vec<String>, min: usize, filler: &str)
    ensures
        views(final(v)@) == padded(views(old(v)@), min as nat, filler@),
{
    let ghost start = views(v@);
    while v.len() < min
        invariant
            start.len() <= views(v@).len(),
            views(v@).len() < min ==> views(v@) == start + Seq::new(
                (views(v@).len() - start.len()) as nat,
                |i: int| filler@,
            ),
            views(v@).len() >= min ==> views(v@) == padded(start, min as nat, filler@),
        decreases min - v@.len(),
    {
        let ghost before = views(v@);
        v.push(String::from_str(filler));
        proof {
            assert(views(v@) =~= before.push(filler@));
            assert(views(v@) =~= start + Seq::new(
                (views(v@).len() - start.len()) as nat,
                |i: int| filler@,
            ));
        }
    }
    proof {
        if start.len() >= min {
            assert(views(v@) == start);
        }
    }
}

fn keep_items(v: &Vec<String>, allowed: &Vec<String>, min: usize, filler: &str) -> (r: Vec<String>)
    ensures
        views(r@) == kept(views(v@), views(allowed@), min as nat, filler@),
{
    let ghost pred = |x: Seq<char>| views(allowed@).contains(x);
    let mut r: Vec<String> = Vec::new();
    let mut i: usize = 0;
    while i < v.len()
        invariant
            i <= v@.len(),
            pred == (|x: Seq<char>| views(allowed@).contains(x)),
            views(r@) == views(v@).take(i as int).filter(pred),
        decreases v@.len() - i,
    {
        let ghost before = views(r@);
        proof {
            reveal(Seq::filter);
            assert(views(v@).take(i + 1).drop_last() =~= views(v@).take(i as int));
            assert(views(v@).take(i + 1).last() == v@[i as int]@);
        }
        if list_holds(allowed, &v[i]) {
            r.push(v[i].clone());
            assert(views(r@) =~= before.push(v@[i as int]@));
        }
        i = i + 1;
    }
    assert(views(v@).take(i as int) =~= views(v@));
    pad_items(&mut r, min, filler);
    r
}

/// Keeps, in the list named `key`, the items that `allowed` holds, and pads
/// it with `filler` to `min` items; a map where `key` names no list is left
/// as it is.
pub fn retain_list(m: &mut PropertyMap, key: &str, allowed: &Vec<String>, min: usize, filler: &str)
    ensures
        final(m)@ == retained(old(m)@, key@, views(allowed@), min as nat, filler@),
{
    let new_items = match m.get(key) {
        Some(Property::List(v)) => keep_items(v, allowed, min, filler),
        _ => return ,
    };
    m.insert(String::from_str(key), Property::List(new_items));
}

/// Pads the list named `key` with `filler` to `min` items; a map where `key`
/// names no list is left as it is.
pub fn pad_list(m: &mut PropertyMap, key: &str, min: usize, filler: &str)
    ensures
        final(m)@ == match lookup(old(m)@, key@) {
            Some(PropertyView::List(v)) => with_entry(
                old(m)@,
                key@,
                PropertyView::List(padded(v, min as nat, filler@)),
            ),
            _ => old(m)@,
        },
{
    let mut items = match m.get(key) {
        Some(Property::List(v)) => copy_list(v),
        _ => return ,
    };
    pad_items(&mut items, min, filler);
    m.insert(String::from_str(key), Property::List(items));
}

/// Sets item `index` of the list named `key` to `value`; a map where `key`
/// names no list is left as it is.
pub fn set_list_item(m: &mut PropertyMap, key: &str, index: usize, value: &str)
    requires
        lookup(old(m)@, key@) matches Some(PropertyView::List(v)) ==> index < v.len(),
    ensures
        final(m)@ == match lookup(old(m)@, key@) {
            Some(PropertyView::List(v)) => with_entry(
                old(m)@,
                key@,
                PropertyView::List(v.update(index as int, value@)),
            ),
            _ => old(m)@,
        },
{
    let mut items = match m.get(key) {
        Some(Property::List(v)) => copy_list(v),
        _ => return ,
    };
    let ghost before = views(items@);
    items.set(index, String::from_str(value));
    assert(views(items@) =~= before.update(index as int, value@));
    m.insert(String::from_str(key), Property::List(items));
}

/// Sets the integer named `key` to the unsigned decimal `text`, or to zero
/// where `text` is not one that fits in 32 bits.
pub fn set_integer_from_text(m: &mut PropertyMap, key: &str, text: &str)
    ensures
        final(m)@ == with_entry(
            old(m)@,
            key@,
            PropertyView::Integer(
                match points_value(text@) {
                    Some(n) => n as u32,
                    None => 0u32,
                },
            ),
        ),
{
    let n: u32 = match parse_decimal(text, u32::MAX as u64) {
        Some(v) => v as u32,
        None => 0,
    };
    m.insert(String::from_str(key), Property::Integer(n));
}

fn learned_skills(points: &Vec<String>, skills: &SkillTable, spell_grade: u32) -> (r: (
    Vec<String>,
    Vec<String>,
))
    ensures
        views(r.0@) == combat_skills(views(points@), skills@),
        views(r.1@) == spell_skills(views(points@), skills@, spell_grade as nat),
{
    let mut combat: Vec<String> = Vec::new();
    let mut spell: Vec<String> = Vec::new();
    let ghost pts = views(points@);
    let mut i: usize = 0;
    while i < points.len()
        invariant
            i <= points@.len(),
            pts == views(points@),
            views(combat@) == combat_skills(pts.take(i as int), skills@),
            views(spell@) == spell_skills(pts.take(i as int), skills@, spell_grade as nat),
        decreases points@.len() - i,
    {
        let ghost before_c = views(combat@);
        let ghost before_s = views(spell@);
        let ghost t = pts.take(i + 1);
        assert(t.drop_last() =~= pts.take(i as int));
        assert(t.last() == points@[i as int]@);
        assert(t.len() - 1 == i);
        match parse_decimal(points[i].as_str(), u32::MAX as u64) {
            Some(n) => {
                if 7 <= i && i <= 61 && n > 0 {
                    match skills.get(i) {
                        Some(skill) => {
                            combat.push(skill.internal.clone());
                            assert(views(combat@) =~= before_c.push(skills@[i].1));
                        },
                        None => {},
                    }
                } else if (62 <= i && i <= 72 && (n > 0 || spell_grade >= 1)) || (73 <= i && i <= 86
                    && (n > 0 || spell_grade >= 2)) || (87 <= i && i <= 114 && (n > 0
                    || spell_grade >= 3)) {
                    match skills.get(i) {
                        Some(skill) => {
                            spell.push(skill.internal.clone());
                            assert(views(spell@) =~= before_s.push(skills@[i].1));
                        },
                        None => {},
                    }
                }
            },
            None => {},
        }
        i = i + 1;
    }
    assert(pts.take(i as int) =~= pts);
    (combat, spell)
}

/// The validation before a save, for a member of combat grade `combat_grade`
/// and spell grade `spell_grade` (each 0 to 3): the learned combat skills
/// and spells are worked out from the skill points list; the selected
/// combat skills and favorite spells keep only learned ones, padded to
/// three with `Empty` and to ten with empty texts; and the grades and the
/// learned skills are recorded.
pub fn validate_member(m: &mut PropertyMap, skills: &SkillTable, combat_grade: u32, spell_grade: u32)
    requires
        combat_grade <= 3,
        spell_grade <= 3,
    ensures
        final(m)@ == validated(old(m)@, skills@, combat_grade as nat, spell_grade as nat),
{
    let (combat, spell) = match m.get("SkillPoints") {
        Some(Property::List(p)) => learned_skills(p, skills, spell_grade),
        _ => {
            let none: Vec<String> = Vec::new();
            let no_spells: Vec<String> = Vec::new();
            assert(views(none@) =~= Seq::<Seq<char>>::empty());
            assert(views(no_spells@) =~= Seq::<Seq<char>>::empty());
            (none, no_spells)
        },
    };
    retain_list(m, "CombatSelects", &combat, COMBAT_SELECTS, "Empty");
    retain_list(m, "SpellFavorites", &spell, SPELL_FAVORITES, "");
    m.insert(String::from_str("CombatGrade"), Property::Float(grade_bits(combat_grade)));
    m.insert(String::from_str("CombatSkills"), Property::List(combat));
    m.insert(String::from_str("SpellGrade"), Property::Float(grade_bits(spell_grade)));
    m.insert(String::from_str("SpellSkills"), Property::List(spell));
}

/// The ids of the party's members: the pieces of the game's `PartyIDs` text
/// between its commas, without those that are `0`; none where the game has
/// no such text.
pub open spec fn party_ids_of(game: Seq<(Seq<char>, PropertyView)>) -> Seq<Seq<char>> {
    match lookup(game, "PartyIDs"@) {
        Some(PropertyView::String(ids)) => split_commas(ids).filter(|x: Seq<char>| x != "0"@),
        _ => Seq::empty(),
    }
}

/// The ids of the party's members, in order.
pub fn party_ids(game: &PropertyMap) -> (r: Vec<String>)
    ensures
        views(r@) == party_ids_of(game@),
{
    let mut r: Vec<String> = Vec::new();
    let pieces = match game.get("PartyIDs") {
        Some(Property::String(ids)) => split_list(ids.as_str()),
        _ => {
            assert(views(r@) =~= Seq::<Seq<char>>::empty());
            return r;
        },
    };
    let ghost pred = |x: Seq<char>| x != "0"@;
    let ghost ps = views(pieces@);
    let mut i: usize = 0;
    while i < pieces.len()
        invariant
            i <= pieces@.len(),
            ps == views(pieces@),
            pred == (|x: Seq<char>| x != "0"@),
            views(r@) == ps.take(i as int).filter(pred),
        decreases pieces@.len() - i,
    {
        let ghost before = views(r@);
        proof {
            reveal(Seq::filter);
            assert(ps.take(i + 1).drop_last() =~= ps.take(i as int));
            assert(ps.take(i + 1).last() == pieces@[i as int]@);
        }
        if !same_text(pieces[i].as_str(), "0") {
            r.push(pieces[i].clone());
            assert(views(r@) =~= before.push(pieces@[i as int]@));
        }
        i = i + 1;
    }
    assert(ps.take(i as int) =~= ps);
    r
}

} // verus!
