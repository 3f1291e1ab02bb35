//! The table of skills, read from the game's XML skill list.

use crate::text::{parse_decimal, parse_unsigned, same_text};
use crate::xml_tree::{
    attribute, attribute_of, element_text, elements_named, first_child_text, first_named,
    lemma_nodes_view, node_view, nodes_view, parse_xml, parses_within_counters, text_opt,
    xml_counters_fit, xml_tree, XmlElement, XmlElementView, XmlNode,
};
use std::collections::HashMap;
use vstd::prelude::*;
use vstd::utf8::encode_utf8;

verus! {

broadcast use vstd::std_specs::hash::group_hash_axioms;

/// What the skill list says of one `skill` element: its `number` and
/// `spritename` attributes and the text of its first `name` and
/// `description` children, where it has them.
pub struct SkillRecord {
    pub number: Option<String>,
    pub spritename: Option<String>,
    pub name: Option<String>,
    pub description: Option<String>,
}

/// The mathematical value of a [`SkillRecord`].
pub struct SkillRecordView {
    pub number: Option<Seq<char>>,
    pub spritename: Option<Seq<char>>,
    pub name: Option<Seq<char>>,
    pub description: Option<Seq<char>>,
}

impl View for SkillRecord {
    type V = SkillRecordView;

    open spec fn view(&self) -> SkillRecordView {
        SkillRecordView {
            number: text_opt(self.number),
            spritename: text_opt(self.spritename),
            name: text_opt(self.name),
            description: text_opt(self.description),
        }
    }
}

/// A skill: the name shown to the player and the name the game uses.
pub struct Skill {
    pub name: String,
    pub internal: String,
}

impl View for Skill {
    type V = (Seq<char>, Seq<char>);

    open spec fn view(&self) -> (Seq<char>, Seq<char>) {
        (self.name@, self.internal@)
    }
}

/// Whether a record describes a skill: it has a name and a description,
/// neither of them empty.
pub open spec fn describes_skill(r: SkillRecordView) -> bool {
    &&& r.name matches Some(n) && n.len() > 0
    &&& r.description matches Some(d) && d.len() > 0
}

/// The skill number a record gives, if its `number` attribute is an
/// unsigned decimal that fits a `usize`.
pub open spec fn skill_number(r: SkillRecordView) -> Option<nat> {
    match r.number {
        Some(n) => parse_unsigned(encode_utf8(n), usize::MAX as nat),
        None => None,
    }
}

/// The skill a record describes: its name, and as the game's name its
/// `spritename`, or its name where it has none.
pub open spec fn skill_of(r: SkillRecordView) -> (Seq<char>, Seq<char>) {
    (
        r.name->0,
        match r.spritename {
            Some(s) => s,
            None => r.name->0,
        },
    )
}

/// Whether every record that describes a skill gives its number.
pub open spec fn numbered(rs: Seq<SkillRecordView>) -> bool {
    forall|i: int| 0 <= i < rs.len() && describes_skill(#[trigger] rs[i]) ==> skill_number(
        rs[i],
    ) is Some
}

/// The skills that the records describe, by number; a later record of the
/// same number replaces an earlier one.
pub open spec fn skill_map(rs: Seq<SkillRecordView>) -> Map<usize, (Seq<char>, Seq<char>)>
    decreases rs.len(),
{
    if rs.len() == 0 {
        Map::empty()
    } else {
        let m = skill_map(rs.drop_last());
        let r = rs.last();
        if describes_skill(r) && skill_number(r) is Some {
            m.insert(skill_number(r)->0 as usize, skill_of(r))
        } else {
            m
        }
    }
}

/// Whether the record at `i` describes the skill numbered `id`.
pub open spec fn gives_skill(rs: Seq<SkillRecordView>, i: int, id: usize) -> bool {
    describes_skill(rs[i]) && skill_number(rs[i]) is Some && skill_number(rs[i])->0 as usize == id
}

/// The table holds a number exactly when some record describes a skill of
/// that number, and then holds the skill of the last such record.
pub proof fn lemma_skill_map(rs: Seq<SkillRecordView>, id: usize)
    ensures
        skill_map(rs).contains_key(id) <==> exists|i: int| 0 <= i < rs.len() && #[trigger] gives_skill(rs, i, id),
        skill_map(rs).contains_key(id) ==> exists|i: int|
            0 <= i < rs.len() && #[trigger] gives_skill(rs, i, id) && skill_map(rs)[id] == skill_of(rs[i])
                && forall|j: int| i < j < rs.len() ==> !gives_skill(rs, j, id),
    decreases rs.len(),
{
    if rs.len() > 0 {
        let p = rs.drop_last();
        lemma_skill_map(p, id);
        let last = rs.len() - 1;
        assert forall|i: int| 0 <= i < p.len() implies gives_skill(p, i, id) == gives_skill(rs, i, id) by {
            assert(p[i] == rs[i]);
        }
        if gives_skill(rs, last, id) {
            assert(skill_map(rs)[id] == skill_of(rs[last]));
        } else {
            if skill_map(rs).contains_key(id) {
                let i = choose|i: int|
                    0 <= i < p.len() && #[trigger] gives_skill(p, i, id) && skill_map(p)[id] == skill_of(p[i])
                        && forall|j: int| i < j < p.len() ==> !gives_skill(p, j, id);
                assert(gives_skill(rs, i, id));
                assert forall|j: int| i < j < rs.len() implies !gives_skill(rs, j, id) by {
                    if j < p.len() {
                        assert(!gives_skill(p, j, id));
                    }
                }
            }
            if exists|i: int| 0 <= i < rs.len() && #[trigger] gives_skill(rs, i, id) {
                let i = choose|i: int| 0 <= i < rs.len() && #[trigger] gives_skill(rs, i, id);
                assert(gives_skill(p, i, id));
            }
        }
    }
}

/// The views of a list of records.
pub open spec fn record_views(rs: Seq<SkillRecord>) -> Seq<SkillRecordView> {
    rs.map_values(|r: SkillRecord| r@)
}

/// The skills of the game, by number.
pub struct SkillTable {
    skills: HashMap<usize, Skill>,
}

impl View for SkillTable {
    type V = Map<usize, (Seq<char>, Seq<char>)>;

    closed spec fn view(&self) -> Map<usize, (Seq<char>, Seq<char>)> {
        self.skills@.map_values(|s: Skill| s@)
    }
}

impl SkillTable {
    /// A table without skills.
    pub fn new() -> (t: SkillTable)
        ensures
            t@ == Map::<usize, (Seq<char>, Seq<char>)>::empty(),
    {
        let t = SkillTable { skills: HashMap::new() };
        assert(t@ =~= Map::<usize, (Seq<char>, Seq<char>)>::empty());
        t
    }

    /// The skill numbered `id`, if any.
    pub fn get(&self, id: usize) -> (r: Option<&Skill>)
        ensures
            match r {
                Some(s) => self@.contains_key(id) && self@[id] == s@,
                None => !self@.contains_key(id),
            },
    {
        self.skills.get(&id)
    }

    /// Sets the skill numbered `id`.
    pub fn insert(&mut self, id: usize, skill: Skill)
        ensures
            final(self)@ == old(self)@.insert(id, skill@),
    {
        self.skills.insert(id, skill);
        assert(self@ =~= old(self)@.insert(id, skill@));
    }
}

fn copy_text(s: &String) -> (r: String)
    ensures
        r@ == s@,
{
    s.clone()
}

/// Builds the table of the skills that the records describe.
pub fn skill_table(records: &Vec<SkillRecord>) -> (t: SkillTable)
    requires
        numbered(record_views(records@)),
    ensures
        t@ == skill_map(record_views(records@)),
{
    let mut t = SkillTable::new();
    let mut i: usize = 0;
    let ghost rs = record_views(records@);
    while i < records.len()
        invariant
            i <= records@.len(),
            rs == record_views(records@),
            numbered(rs),
            t@ == skill_map(rs.take(i as int)),
        decreases records@.len() - i,
    {
        let r = &records[i];
        assert(rs.take(i + 1).drop_last() =~= rs.take(i as int));
        assert(rs.take(i + 1).last() == rs[i as int]);
        assert(rs[i as int] == r@);
        match (&r.name, &r.description) {
            (Some(name), Some(desc)) => {
                if name.as_str().as_bytes().len() > 0 && desc.as_str().as_bytes().len() > 0 {
                    proof {
                        vstd::utf8::encode_utf8_decode_utf8(name@);
                        vstd::utf8::encode_utf8_decode_utf8(desc@);
                    }
                    assert(describes_skill(rs[i as int]));
                    let number = match &r.number {
                        Some(n) => n,
                        None => {
                            assert(false);
                            return t;
                        },
                    };
                    let id = match parse_decimal(number.as_str(), usize::MAX as u64) {
                        Some(v) => v as usize,
                        None => {
                            assert(false);
                            return t;
                        },
                    };
                    let internal = match &r.spritename {
                        Some(sp) => copy_text(sp),
                        None => copy_text(name),
                    };
                    t.insert(id, Skill { name: copy_text(name), internal });
                } else {
                    proof {
                        if name@.len() > 0 && desc@.len() > 0 {
                            vstd::utf8::encode_utf8_first_scalar(name@);
                            vstd::utf8::encode_utf8_first_scalar(desc@);
                        }
                    }
                }
            },
            _ => {},
        }
        i = i + 1;
    }
    assert(rs.take(i as int) =~= rs);
    t
}

/// What a `skill` element says: its `number` and `spritename` attributes
/// and the character data of its first `name` and first `description`
/// children, each without a namespace.
pub open spec fn record_of(c: XmlElementView) -> SkillRecordView {
    SkillRecordView {
        number: attribute_of(c, "number"@),
        spritename: attribute_of(c, "spritename"@),
        name: match first_named(c.children, "name"@) {
            Some(n) => Some(element_text(n)),
            None => None,
        },
        description: match first_named(c.children, "description"@) {
            Some(d) => Some(element_text(d)),
            None => None,
        },
    }
}

/// What the skill list says of each child of its root that is an element
/// named `skill` without a namespace, in document order.
pub open spec fn skill_records_of(root: XmlElementView) -> Seq<SkillRecordView> {
    elements_named(root.children, "skill"@).map_values(|c: XmlElementView| record_of(c))
}

/// Reads what the skill list says of each of its `skill` elements.
pub fn skill_records(root: &XmlElement) -> (rs: Vec<SkillRecord>)
    ensures
        record_views(rs@) == skill_records_of(root@),
{
    let ghost kids = nodes_view(root.children@);
    proof {
        lemma_nodes_view(root.children@);
    }
    let mut rs: Vec<SkillRecord> = Vec::new();
    let mut i: usize = 0;
    while i < root.children.len()
        invariant
            i <= root.children@.len(),
            kids == nodes_view(root.children@),
            kids.len() == root.children@.len(),
            forall|j: int| 0 <= j < kids.len() ==> kids[j] == node_view(#[trigger] root.children@[j]),
            record_views(rs@) == elements_named(kids.take(i as int), "skill"@).map_values(
                |c: XmlElementView| record_of(c),
            ),
        decreases root.children@.len() - i,
    {
        let ghost before = record_views(rs@);
        let ghost t = kids.take(i + 1);
        assert(t.drop_last() =~= kids.take(i as int));
        assert(t.last() == node_view(root.children@[i as int]));
        match &root.children[i] {
            XmlNode::Element(c) => {
                if c.ns.is_none() && same_text(c.name.as_str(), "skill") {
                    let r = SkillRecord {
                        number: attribute(c, "number"),
                        spritename: attribute(c, "spritename"),
                        name: first_child_text(c, "name"),
                        description: first_child_text(c, "description"),
                    };
                    rs.push(r);
                    assert(record_views(rs@) =~= before.push(record_of(c@)));
                }
            },
            _ => {},
        }
        assert(record_views(rs@) =~= elements_named(t, "skill"@).map_values(
            |c: XmlElementView| record_of(c),
        ));
        i = i + 1;
    }
    assert(kids.take(i as int) =~= kids);
    rs
}

/// The skills of the skill list `text`: those its records describe, or
/// none where the text is not well-formed XML. The text must be one that
/// RustyXML's parser reads without a counter overflowing, and every `skill`
/// element with a non-empty name and description must give its number.
pub fn load_skills(text: &str) -> (t: SkillTable)
    requires
        parses_within_counters(text@),
        xml_tree(text@) matches Some(root) ==> numbered(skill_records_of(root)),
    ensures
        t@ == match xml_tree(text@) {
            None => Map::<usize, (Seq<char>, Seq<char>)>::empty(),
            Some(root) => skill_map(skill_records_of(root)),
        },
{
    match parse_xml(text) {
        None => SkillTable::new(),
        Some(root) => skill_table(&skill_records(&root)),
    }
}

/// The skills of the skill list `text`, as [`load_skills`] reads them; `None`
/// where a counter of RustyXML's parser would overflow on the text, and
/// where a `skill` element with a non-empty name and description has no
/// `number` that is an unsigned decimal fitting a `usize`.
pub fn try_load_skills(text: &str) -> (r: Option<SkillTable>)
    ensures
        !parses_within_counters(text@) ==> r is None,
        parses_within_counters(text@) ==> match xml_tree(text@) {
            None => r matches Some(t) && t@ == Map::<usize, (Seq<char>, Seq<char>)>::empty(),
            Some(root) => if numbered(skill_records_of(root)) {
                r matches Some(t) && t@ == skill_map(skill_records_of(root))
            } else {
                r is None
            },
        },
{
    if !xml_counters_fit(text) {
        return None;
    }
    match parse_xml(text) {
        None => {},
        Some(root) => {
            if !all_numbered(&skill_records(&root)) {
                return None;
            }
        },
    }
    Some(load_skills(text))
}

fn record_describes_skill(r: &SkillRecord) -> (b: bool)
    ensures
        b == describes_skill(r@),
{
    match (&r.name, &r.description) {
        (Some(name), Some(desc)) => {
            proof {
                vstd::utf8::encode_utf8_decode_utf8(name@);
                vstd::utf8::encode_utf8_decode_utf8(desc@);
            }
            name.as_str().as_bytes().len() > 0 && desc.as_str().as_bytes().len() > 0
        },
        _ => false,
    }
}

fn record_numbered(r: &SkillRecord) -> (b: bool)
    ensures
        b == (skill_number(r@) is Some),
{
    match &r.number {
        Some(n) => parse_decimal(n.as_str(), usize::MAX as u64).is_some(),
        None => false,
    }
}

/// Whether every record that describes a skill gives its number.
pub fn all_numbered(records: &Vec<SkillRecord>) -> (b: bool)
    ensures
        b == numbered(record_views(records@)),
{
    let ghost rs = record_views(records@);
    let mut i: usize = 0;
    while i < records.len()
        invariant
            i <= records@.len(),
            rs == record_views(records@),
            forall|j: int| 0 <= j < i && describes_skill(#[trigger] rs[j]) ==> skill_number(
                rs[j],
            ) is Some,
        decreases records@.len() - i,
    {
        let r = &records[i];
        assert(rs[i as int] == r@);
        if record_describes_skill(r) && !record_numbered(r) {
            return false;
        }
        i = i + 1;
    }
    true
}

} // verus!
