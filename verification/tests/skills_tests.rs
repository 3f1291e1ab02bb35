use propfile::skills::{all_numbered, load_skills, skill_table, try_load_skills, SkillRecord};

const LIST: &str = r#"<skills>
  <skill number="7" spritename="SWORD"><name>Sword</name><description>Cuts</description></skill>
  <skill number="8"><name>Axe</name><description>Chops</description></skill>
  <skill number="9"><name>Nothing</name><description></description></skill>
  <other number="10"><name>Ignored</name><description>x</description></other>
  <skill number="7" spritename="BLADE"><name>Blade</name><description>Sharper</description></skill>
</skills>"#;

#[test]
fn skills_are_read_from_the_list() {
    let t = load_skills(LIST);
    let blade = t.get(7).unwrap();
    assert_eq!(blade.name, "Blade");
    assert_eq!(blade.internal, "BLADE");
    let axe = t.get(8).unwrap();
    assert_eq!(axe.name, "Axe");
    assert_eq!(axe.internal, "Axe");
    assert!(t.get(9).is_none());
    assert!(t.get(10).is_none());
}

#[test]
fn malformed_list_gives_no_skills() {
    let t = load_skills("<skills><skill>");
    assert!(t.get(7).is_none());
    let t = try_load_skills("<skills><skill>").unwrap();
    assert!(t.get(7).is_none());
}

#[test]
fn unnumbered_skill_is_where_the_reader_panics() {
    let text = r#"<skills><skill number="x"><name>A</name><description>B</description></skill></skills>"#;
    assert!(try_load_skills(text).is_none());
    let text = r#"<skills><skill><name>A</name><description>B</description></skill></skills>"#;
    assert!(try_load_skills(text).is_none());
    let text = r#"<skills><skill><name>A</name></skill></skills>"#;
    assert!(try_load_skills(text).is_some());
}

#[test]
fn table_from_records() {
    let records = vec![
        SkillRecord {
            number: Some("+3".to_string()),
            spritename: None,
            name: Some("Jab".to_string()),
            description: Some("quick".to_string()),
        },
        SkillRecord { number: None, spritename: None, name: None, description: None },
    ];
    assert!(all_numbered(&records));
    let t = skill_table(&records);
    assert_eq!(t.get(3).unwrap().internal, "Jab");
}

#[test]
fn only_the_first_name_child_and_plain_attributes_count() {
    let text = r#"<skills>
      <skill number="4" spritename="A"><name>First <b>bold</b><![CDATA[ end]]></name><name>Second</name><description>x<!-- c --></description></skill>
      <x:skill xmlns:x="urn:x" number="5"><name>Other</name><description>y</description></x:skill>
    </skills>"#;
    let t = try_load_skills(text).unwrap();
    let s = t.get(4).unwrap();
    assert_eq!(s.name, "First bold end");
    assert_eq!(s.internal, "A");
    assert!(t.get(5).is_none());
}

#[test]
fn long_runs_of_brackets_in_cdata_are_refused() {
    let inside = format!(
        "<skills><skill number=\"1\"><name><![CDATA[{}]]></name><description>d</description></skill></skills>",
        "]".repeat(256)
    );
    assert!(!propfile::xml_tree::xml_counters_fit(&inside));
    assert!(try_load_skills(&inside).is_none());
    let shorter = format!(
        "<skills><skill number=\"1\"><name><![CDATA[{}]]></name><description>d</description></skill></skills>",
        "]".repeat(253)
    );
    assert!(propfile::xml_tree::xml_counters_fit(&shorter));
    let t = try_load_skills(&shorter).unwrap();
    assert_eq!(t.get(1).unwrap().name, "]".repeat(253));
    let outside = format!(
        "<skills><skill number=\"1\"><name>{}</name><description>d</description></skill></skills>",
        "]".repeat(300)
    );
    assert!(try_load_skills(&outside).is_some());
}
