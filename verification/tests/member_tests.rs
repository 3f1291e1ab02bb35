use propfile::member::{
    grade_bits, pad_list, party_ids, set_integer_from_text, set_list_item, validate_member,
};
use propfile::property::{Property, PropertyMap};
use propfile::skills::{skill_table, SkillRecord};
use propfile::text::{join_list, parse_decimal, same_text};

fn text(s: &str) -> String {
    s.to_string()
}

fn list(items: &[&str]) -> Property {
    Property::List(items.iter().map(|s| s.to_string()).collect())
}

fn list_of(m: &PropertyMap, key: &str) -> Vec<String> {
    match m.get(key) {
        Some(Property::List(v)) => v.clone(),
        _ => panic!("{} is not a list", key),
    }
}

fn record(number: &str, name: &str, sprite: Option<&str>) -> SkillRecord {
    SkillRecord {
        number: Some(number.to_string()),
        spritename: sprite.map(|s| s.to_string()),
        name: Some(name.to_string()),
        description: Some("d".to_string()),
    }
}

fn sample_skills() -> propfile::skills::SkillTable {
    skill_table(&vec![
        record("7", "Sword", Some("SWORD")),
        record("8", "Axe", None),
        record("62", "Light", Some("LIGHT")),
        record("73", "Heal", Some("HEAL")),
        record("90", "Storm", Some("STORM")),
    ])
}

fn points_with(set: &[(usize, &str)]) -> Property {
    let mut v = vec![text("0"); 115];
    for (i, p) in set {
        v[*i] = text(p);
    }
    Property::List(v)
}

#[test]
fn grade_bits_are_the_floats() {
    assert_eq!(grade_bits(0), 0.0f32.to_bits());
    assert_eq!(grade_bits(1), 1.0f32.to_bits());
    assert_eq!(grade_bits(2), 2.0f32.to_bits());
    assert_eq!(grade_bits(3), 3.0f32.to_bits());
}

#[test]
fn validation_keeps_learned_selections() {
    let mut m = PropertyMap::new();
    m.insert(text("SkillPoints"), points_with(&[(7, "2"), (8, "x"), (62, "0"), (73, "1")]));
    m.insert(text("CombatSelects"), list(&["AXE", "SWORD", "Empty"]));
    m.insert(text("SpellFavorites"), list(&["HEAL", "LIGHT", "STORM"]));
    let skills = sample_skills();
    validate_member(&mut m, &skills, 2, 1);
    assert_eq!(list_of(&m, "CombatSkills"), vec![text("SWORD")]);
    assert_eq!(list_of(&m, "SpellSkills"), vec![text("LIGHT"), text("HEAL")]);
    assert_eq!(list_of(&m, "CombatSelects"), vec![text("SWORD"), text("Empty"), text("Empty")]);
    let favorites = list_of(&m, "SpellFavorites");
    assert_eq!(favorites.len(), 10);
    assert_eq!(&favorites[..2], &[text("HEAL"), text("LIGHT")]);
    assert!(favorites[2..].iter().all(|s| s.is_empty()));
    match m.get("CombatGrade") {
        Some(Property::Float(bits)) => assert_eq!(*bits, 2.0f32.to_bits()),
        _ => panic!("no combat grade"),
    }
    match m.get("SpellGrade") {
        Some(Property::Float(bits)) => assert_eq!(*bits, 1.0f32.to_bits()),
        _ => panic!("no spell grade"),
    }
}

#[test]
fn higher_spell_grade_learns_more_spells() {
    let mut m = PropertyMap::new();
    m.insert(text("SkillPoints"), points_with(&[]));
    let skills = sample_skills();
    validate_member(&mut m, &skills, 0, 3);
    assert_eq!(list_of(&m, "SpellSkills"), vec![text("LIGHT"), text("HEAL"), text("STORM")]);
    assert_eq!(list_of(&m, "CombatSkills"), Vec::<String>::new());
}

#[test]
fn validating_twice_changes_nothing_more() {
    let mut m = PropertyMap::new();
    m.insert(text("SkillPoints"), points_with(&[(7, "1"), (90, "4")]));
    m.insert(text("CombatSelects"), list(&["SWORD"]));
    m.insert(text("SpellFavorites"), list(&["STORM", "HEAL"]));
    let skills = sample_skills();
    validate_member(&mut m, &skills, 1, 0);
    let once: Vec<(String, Vec<String>)> = ["CombatSelects", "SpellFavorites", "CombatSkills", "SpellSkills"]
        .iter()
        .map(|k| (k.to_string(), list_of(&m, k)))
        .collect();
    let len = m.len();
    validate_member(&mut m, &skills, 1, 0);
    assert_eq!(m.len(), len);
    for (k, v) in once {
        assert_eq!(list_of(&m, &k), v);
    }
}

#[test]
fn validation_without_points_learns_nothing() {
    let mut m = PropertyMap::new();
    m.insert(text("CombatSelects"), list(&["SWORD"]));
    validate_member(&mut m, &sample_skills(), 0, 0);
    assert_eq!(list_of(&m, "CombatSelects"), vec![text("Empty"); 3]);
    assert!(m.get("SpellFavorites").is_none());
}

#[test]
fn pad_list_extends_to_length() {
    let mut m = PropertyMap::new();
    m.insert(text("SkillPoints"), list(&["1", "2"]));
    pad_list(&mut m, "SkillPoints", 115, "0");
    let v = list_of(&m, "SkillPoints");
    assert_eq!(v.len(), 115);
    assert_eq!(&v[..2], &[text("1"), text("2")]);
    assert!(v[2..].iter().all(|s| s == "0"));
    pad_list(&mut m, "Missing", 5, "0");
    assert!(m.get("Missing").is_none());
}

#[test]
fn set_list_item_replaces_one_item() {
    let mut m = PropertyMap::new();
    m.insert(text("SkillPoints"), list(&["1", "2", "3"]));
    set_list_item(&mut m, "SkillPoints", 1, "9");
    assert_eq!(list_of(&m, "SkillPoints"), vec![text("1"), text("9"), text("3")]);
    m.insert(text("Name"), Property::String(text("x")));
    set_list_item(&mut m, "Name", 7, "y");
    match m.get("Name") {
        Some(Property::String(s)) => assert_eq!(s, "x"),
        _ => panic!(),
    }
}

#[test]
fn integer_edits_parse_or_fall_back_to_zero() {
    let mut m = PropertyMap::new();
    set_integer_from_text(&mut m, "Emeralds", "+120");
    match m.get("Emeralds") {
        Some(Property::Integer(n)) => assert_eq!(*n, 120),
        _ => panic!(),
    }
    set_integer_from_text(&mut m, "Emeralds", "12a");
    match m.get("Emeralds") {
        Some(Property::Integer(n)) => assert_eq!(*n, 0),
        _ => panic!(),
    }
    assert_eq!(m.len(), 1);
}

#[test]
fn party_ids_skip_zero() {
    let mut game = PropertyMap::new();
    game.insert(text("PartyIDs"), Property::String(text("3,0,5,0,12")));
    assert_eq!(party_ids(&game), vec![text("3"), text("5"), text("12")]);
    let empty = PropertyMap::new();
    assert!(party_ids(&empty).is_empty());
}

#[test]
fn decimal_numbers_follow_the_standard_parser() {
    for s in ["0", "+7", "4294967295", "4294967296", "", "+", "-1", " 1", "007", "1e3"] {
        let expected = s.parse::<u32>().ok().map(|v| v as u64);
        assert_eq!(parse_decimal(s, u32::MAX as u64), expected, "{:?}", s);
    }
    assert_eq!(parse_decimal("18446744073709551615", u64::MAX), Some(u64::MAX));
    assert_eq!(parse_decimal("18446744073709551616", u64::MAX), None);
}

#[test]
fn texts_compare_and_join() {
    assert!(same_text("Zoë", "Zoë"));
    assert!(!same_text("Zoë", "Zoe"));
    assert!(!same_text("ab", "abc"));
    assert_eq!(join_list(&vec![text("a"), text(""), text("b")]), "a,,b");
    assert_eq!(join_list(&vec![]), "");
}
