//! A plain XML tree, as RustyXML parses it, and the reads the library makes
//! of it.

use crate::text::same_text;
use vstd::utf8::encode_utf8;
use xml::Xml;
use vstd::prelude::*;

verus! {

/// An attribute: its name, its namespace and its value.
pub struct XmlAttribute {
    pub name: String,
    pub ns: Option<String>,
    pub value: String,
}

/// An element: its name, its namespace, its attributes and its children in
/// document order.
pub struct XmlElement {
    pub name: String,
    pub ns: Option<String>,
    pub attributes: Vec<XmlAttribute>,
    pub children: Vec<XmlNode>,
}

/// A child of an element.
pub enum XmlNode {
    Element(XmlElement),
    Characters(String),
    CData(String),
    Comment(String),
    Instruction(String),
}

/// The mathematical value of an element. Attribute values are keyed by
/// name and namespace.
pub struct XmlElementView {
    pub name: Seq<char>,
    pub ns: Option<Seq<char>>,
    pub attributes: Map<(Seq<char>, Option<Seq<char>>), Seq<char>>,
    pub children: Seq<XmlNodeView>,
}

/// The mathematical value of a child of an element.
pub enum XmlNodeView {
    Element(XmlElementView),
    Characters(Seq<char>),
    CData(Seq<char>),
    Comment(Seq<char>),
    Instruction(Seq<char>),
}

/// The view of an optional text.
pub open spec fn text_opt(o: Option<String>) -> Option<Seq<char>> {
    match o {
        Some(s) => Some(s@),
        None => None,
    }
}

/// The attributes keyed by name and namespace; of two with one key the
/// later counts.
pub open spec fn attribute_map(a: Seq<XmlAttribute>) -> Map<(Seq<char>, Option<Seq<char>>), Seq<char>>
    decreases a.len(),
{
    if a.len() == 0 {
        Map::empty()
    } else {
        attribute_map(a.drop_last()).insert((a.last().name@, text_opt(a.last().ns)), a.last().value@)
    }
}

/// The view of an element.
pub open spec fn element_view(e: XmlElement) -> XmlElementView
    decreases e,
{
    XmlElementView {
        name: e.name@,
        ns: text_opt(e.ns),
        attributes: attribute_map(e.attributes@),
        children: nodes_view(e.children@),
    }
}

/// The views of a run of children.
pub open spec fn nodes_view(ns: Seq<XmlNode>) -> Seq<XmlNodeView>
    decreases ns,
{
    if ns.len() == 0 {
        Seq::empty()
    } else {
        seq![node_view(ns[0])] + nodes_view(ns.drop_first())
    }
}

/// The view of a child.
pub open spec fn node_view(n: XmlNode) -> XmlNodeView
    decreases n,
{
    match n {
        XmlNode::Element(e) => XmlNodeView::Element(element_view(e)),
        XmlNode::Characters(t) => XmlNodeView::Characters(t@),
        XmlNode::CData(t) => XmlNodeView::CData(t@),
        XmlNode::Comment(t) => XmlNodeView::Comment(t@),
        XmlNode::Instruction(t) => XmlNodeView::Instruction(t@),
    }
}

impl View for XmlElement {
    type V = XmlElementView;

    open spec fn view(&self) -> XmlElementView {
        element_view(*self)
    }
}

/// Every child's view stands at its place.
pub proof fn lemma_nodes_view(ns: Seq<XmlNode>)
    ensures
        nodes_view(ns).len() == ns.len(),
        forall|i: int| 0 <= i < ns.len() ==> nodes_view(ns)[i] == node_view(#[trigger] ns[i]),
    decreases ns.len(),
{
    if ns.len() > 0 {
        lemma_nodes_view(ns.drop_first());
        assert forall|i: int| 0 <= i < ns.len() implies nodes_view(ns)[i] == node_view(
            #[trigger] ns[i],
        ) by {
            if i > 0 {
                assert(ns[i] == ns.drop_first()[i - 1]);
            }
        }
    }
}

/// The character data of an element and its descendants, in document
/// order.
pub open spec fn element_text(e: XmlElementView) -> Seq<char>
    decreases e,
{
    nodes_text(e.children)
}

/// The character data of a run of children.
pub open spec fn nodes_text(ns: Seq<XmlNodeView>) -> Seq<char>
    decreases ns,
{
    if ns.len() == 0 {
        Seq::empty()
    } else {
        node_text(ns[0]) + nodes_text(ns.drop_first())
    }
}

/// The character data of a child: its text, or an element's character
/// data; comments and processing instructions hold none.
pub open spec fn node_text(n: XmlNodeView) -> Seq<char>
    decreases n,
{
    match n {
        XmlNodeView::Element(e) => element_text(e),
        XmlNodeView::Characters(t) => t,
        XmlNodeView::CData(t) => t,
        _ => Seq::empty(),
    }
}

/// The value of the attribute named `name` without a namespace.
pub open spec fn attribute_of(e: XmlElementView, name: Seq<char>) -> Option<Seq<char>> {
    if e.attributes.contains_key((name, None)) {
        Some(e.attributes[(name, None)])
    } else {
        None
    }
}

/// Whether a child is an element named `name` without a namespace.
pub open spec fn is_element_named(n: XmlNodeView, name: Seq<char>) -> bool {
    n matches XmlNodeView::Element(e) && e.name == name && e.ns is None
}

/// The children that are elements named `name` without a namespace, in
/// order.
pub open spec fn elements_named(ns: Seq<XmlNodeView>, name: Seq<char>) -> Seq<XmlElementView>
    decreases ns.len(),
{
    if ns.len() == 0 {
        Seq::empty()
    } else {
        let r = elements_named(ns.drop_last(), name);
        if is_element_named(ns.last(), name) {
            r.push(ns.last()->Element_0)
        } else {
            r
        }
    }
}

/// The first child that is an element named `name` without a namespace.
pub open spec fn first_named(ns: Seq<XmlNodeView>, name: Seq<char>) -> Option<XmlElementView>
    decreases ns.len(),
{
    if ns.len() == 0 {
        None
    } else if is_element_named(ns[0], name) {
        Some(ns[0]->Element_0)
    } else {
        first_named(ns.drop_first(), name)
    }
}

/// The character data of an element and its descendants, in document
/// order.
pub fn text_content(e: &XmlElement) -> (r: String)
    ensures
        r@ == element_text(e@),
    decreases e,
{
    let mut r = String::new();
    let ghost kids = nodes_view(e.children@);
    proof {
        lemma_nodes_view(e.children@);
        assert(kids.skip(0) =~= kids);
    }
    let mut i: usize = 0;
    while i < e.children.len()
        invariant
            i <= e.children@.len(),
            kids == nodes_view(e.children@),
            kids.len() == e.children@.len(),
            forall|j: int| 0 <= j < kids.len() ==> kids[j] == node_view(#[trigger] e.children@[j]),
            r@ + nodes_text(kids.skip(i as int)) == element_text(e@),
        decreases e.children@.len() - i,
    {
        let ghost before = r@;
        let ghost rest = kids.skip(i as int);
        assert(rest.drop_first() =~= kids.skip(i + 1));
        assert(rest[0] == node_view(e.children@[i as int]));
        match &e.children[i] {
            XmlNode::Element(inner) => {
                assert(decreases_to!(e => e.children));
                assert(decreases_to!(e.children => e.children@));
                assert(decreases_to!(e.children@ => e.children@[i as int]));
                let t = text_content(inner);
                r.append(t.as_str());
            },
            XmlNode::Characters(t) => {
                r.append(t.as_str());
            },
            XmlNode::CData(t) => {
                r.append(t.as_str());
            },
            _ => {},
        }
        assert(r@ == before + node_text(rest[0]));
        assert(rest.len() > 0);
        assert(nodes_text(rest) == node_text(rest[0]) + nodes_text(rest.drop_first()));
        assert(r@ + nodes_text(kids.skip(i + 1)) =~= before + nodes_text(rest));
        i = i + 1;
    }
    assert(kids.skip(i as int) =~= Seq::<XmlNodeView>::empty());
    assert(r@ + nodes_text(kids.skip(i as int)) =~= r@);
    r
}

/// The attributes of `a[i..]` have no key `k`: the map of `a` agrees with
/// that of `a[..i]` at `k`.
proof fn lemma_attribute_tail(a: Seq<XmlAttribute>, i: int, k: (Seq<char>, Option<Seq<char>>))
    requires
        0 <= i <= a.len(),
        forall|j: int| i <= j < a.len() ==> (a[j].name@, text_opt(a[j].ns)) != k,
    ensures
        attribute_map(a).contains_key(k) == attribute_map(a.take(i)).contains_key(k),
        attribute_map(a).contains_key(k) ==> attribute_map(a)[k] == attribute_map(a.take(i))[k],
    decreases a.len() - i,
{
    if i < a.len() {
        lemma_attribute_tail(a.drop_last(), i, k);
        assert(a.drop_last().take(i) =~= a.take(i));
    } else {
        assert(a.take(i) =~= a);
    }
}

/// The value of the attribute named `name` without a namespace.
pub fn attribute(e: &XmlElement, name: &str) -> (r: Option<String>)
    ensures
        text_opt(r) == attribute_of(e@, name@),
{
    let mut i: usize = e.attributes.len();
    let ghost a = e.attributes@;
    let ghost k = (name@, None::<Seq<char>>);
    while i > 0
        invariant
            i <= a.len(),
            a == e.attributes@,
            k == (name@, None::<Seq<char>>),
            forall|j: int| i <= j < a.len() ==> (a[j].name@, text_opt(a[j].ns)) != k,
        decreases i,
    {
        let at = &e.attributes[i - 1];
        if at.ns.is_none() && same_text(at.name.as_str(), name) {
            proof {
                lemma_attribute_tail(a, i as int, k);
                assert(a.take(i as int).drop_last() =~= a.take(i - 1));
                assert(a.take(i as int).last() == a[i - 1]);
            }
            return Some(at.value.clone());
        }
        i = i - 1;
    }
    proof {
        lemma_attribute_tail(a, 0, k);
        assert(a.take(0) =~= Seq::<XmlAttribute>::empty());
    }
    None
}

/// The character data of the first child that is an element named `name`
/// without a namespace.
pub fn first_child_text(e: &XmlElement, name: &str) -> (r: Option<String>)
    ensures
        text_opt(r) == match first_named(e@.children, name@) {
            Some(c) => Some(element_text(c)),
            None => None,
        },
{
    let ghost kids = nodes_view(e.children@);
    proof {
        lemma_nodes_view(e.children@);
        assert(kids.skip(0) =~= kids);
    }
    let mut i: usize = 0;
    while i < e.children.len()
        invariant
            i <= e.children@.len(),
            kids == nodes_view(e.children@),
            kids.len() == e.children@.len(),
            forall|j: int| 0 <= j < kids.len() ==> kids[j] == node_view(#[trigger] e.children@[j]),
            first_named(kids, name@) == first_named(kids.skip(i as int), name@),
        decreases e.children@.len() - i,
    {
        let ghost rest = kids.skip(i as int);
        assert(rest.drop_first() =~= kids.skip(i + 1));
        assert(rest[0] == node_view(e.children@[i as int]));
        match &e.children[i] {
            XmlNode::Element(c) => {
                if c.ns.is_none() && same_text(c.name.as_str(), name) {
                    return Some(text_content(c));
                }
            },
            _ => {},
        }
        i = i + 1;
    }
    assert(kids.skip(i as int) =~= Seq::<XmlNodeView>::empty());
    None
}

/// The bytes that open a CDATA section: `<![CDATA[`.
pub open spec fn cdata_open() -> Seq<u8> {
    seq![60u8, 33u8, 91u8, 67u8, 68u8, 65u8, 84u8, 65u8, 91u8]
}

/// Whether a CDATA opener starts at `i` in `s`.
pub open spec fn opens_cdata(s: Seq<u8>, i: int) -> bool {
    0 <= i && i + 9 <= s.len() && s.subrange(i, i + 9) == cdata_open()
}

/// The longest run of `]` inside a CDATA section that RustyXML's parser
/// counts without overflow: it counts them in a `u8`.
pub const MAX_CDATA_RUN: u64 = 255;

/// Scans the UTF-8 bytes of a text from `i` on, `inside` a CDATA section
/// with a run of `run` bytes `]` just before, `col` bytes since the last
/// line feed and `lines` line feeds so far, and says whether no counter of
/// RustyXML's parser overflows: no run of more than 255 `]` inside a CDATA
/// section (from a `<![CDATA[` to the first `>` after two `]`), fewer than
/// 2^32 - 1 line feeds, and no line of 2^32 bytes or more. The parser counts
/// characters, not bytes, and does not read past the root element; the
/// condition is stated over all the bytes, so it holds of every text on which
/// the counters do not overflow and of a few more.
pub open spec fn counters_fit_from(s: Seq<u8>, i: int, inside: bool, run: nat, col: nat, lines: nat) -> bool
    decreases s.len() - i,
{
    if i < 0 || i >= s.len() {
        true
    } else if !inside && opens_cdata(s, i) {
        col + 9 <= u32::MAX && counters_fit_from(s, i + 9, true, 0, col + 9, lines)
    } else {
        let c = s[i];
        let col2: nat = if c == 10 {
            0
        } else {
            col + 1
        };
        let lines2: nat = if c == 10 {
            lines + 1
        } else {
            lines
        };
        &&& col2 <= u32::MAX
        &&& lines2 + 1 <= u32::MAX
        &&& if !inside {
            counters_fit_from(s, i + 1, false, 0, col2, lines2)
        } else if c == 93 {
            run + 1 <= MAX_CDATA_RUN && counters_fit_from(s, i + 1, true, run + 1, col2, lines2)
        } else if c == 62 && run >= 2 {
            counters_fit_from(s, i + 1, false, 0, col2, lines2)
        } else {
            counters_fit_from(s, i + 1, true, 0, col2, lines2)
        }
    }
}

/// Whether RustyXML's parser reads `text` without a counter overflowing,
/// stated over its UTF-8 bytes as [`counters_fit_from`] says.
pub open spec fn parses_within_counters(text: Seq<char>) -> bool {
    counters_fit_from(encode_utf8(text), 0, false, 0, 0, 0)
}

/// Whether RustyXML's parser reads `text` without a counter overflowing.
pub fn xml_counters_fit(text: &str) -> (b: bool)
    ensures
        b == parses_within_counters(text@),
{
    let s = text.as_bytes();
    let ghost full = s@;
    let n = s.len();
    let mut i: usize = 0;
    let mut inside = false;
    let mut run: u64 = 0;
    let mut col: u64 = 0;
    let mut lines: u64 = 0;
    while i < n
        invariant
            n == s@.len(),
            full == s@,
            full == encode_utf8(text@),
            i <= n,
            run <= MAX_CDATA_RUN,
            col <= u32::MAX,
            lines + 1 <= u32::MAX,
            counters_fit_from(full, 0, false, 0, 0, 0) == counters_fit_from(
                full,
                i as int,
                inside,
                run as nat,
                col as nat,
                lines as nat,
            ),
        decreases n - i,
    {
        if !inside && n - i >= 9 && s[i] == 60 && s[i + 1] == 33 && s[i + 2] == 91 && s[i + 3] == 67
            && s[i + 4] == 68 && s[i + 5] == 65 && s[i + 6] == 84 && s[i + 7] == 65 && s[i + 8]
            == 91 {
            assert(opens_cdata(full, i as int)) by {
                assert(full.subrange(i as int, i + 9) =~= cdata_open());
            }
            if col + 9 > u32::MAX as u64 {
                return false;
            }
            col = col + 9;
            inside = true;
            run = 0;
            i = i + 9;
        } else {
            proof {
                if !inside && opens_cdata(full, i as int) {
                    assert(full.subrange(i as int, i + 9)[0] == full[i as int]);
                    assert(full.subrange(i as int, i + 9)[1] == full[i + 1]);
                    assert(full.subrange(i as int, i + 9)[2] == full[i + 2]);
                    assert(full.subrange(i as int, i + 9)[3] == full[i + 3]);
                    assert(full.subrange(i as int, i + 9)[4] == full[i + 4]);
                    assert(full.subrange(i as int, i + 9)[5] == full[i + 5]);
                    assert(full.subrange(i as int, i + 9)[6] == full[i + 6]);
                    assert(full.subrange(i as int, i + 9)[7] == full[i + 7]);
                    assert(full.subrange(i as int, i + 9)[8] == full[i + 8]);
                }
            }
            let c = s[i];
            if c == 10 {
                if lines + 2 > u32::MAX as u64 {
                    return false;
                }
                lines = lines + 1;
                col = 0;
            } else {
                if col + 1 > u32::MAX as u64 {
                    return false;
                }
                col = col + 1;
            }
            if inside {
                if c == 93 {
                    if run + 1 > MAX_CDATA_RUN {
                        return false;
                    }
                    run = run + 1;
                } else if c == 62 && run >= 2 {
                    inside = false;
                    run = 0;
                } else {
                    run = 0;
                }
            } else {
                run = 0;
            }
            i = i + 1;
        }
    }
    true
}

/// The tree that RustyXML parses from `text`, or `None` where the text is
/// not well-formed XML.
pub uninterp spec fn xml_tree(text: Seq<char>) -> Option<XmlElementView>;

/// Parses `text` with `<xml::Element as FromStr>::from_str` of RustyXML and
/// copies the element it gives into the library's tree. The contract says
/// only that the tree is a function of the text, named `xml_tree`; what
/// parsing gives is not stated. The attributes come from a hash map, in an
/// order that may differ between runs, so the name speaks of them as a map.
///
/// The parser panics where one of its counters overflows; `requires` leaves
/// those texts out.
#[verifier::external_body]
pub(crate) fn parse_xml(text: &str) -> (r: Option<XmlElement>)
    requires
        parses_within_counters(text@),
    ensures
        match r {
            Some(e) => xml_tree(text@) == Some(e@),
            None => xml_tree(text@) is None,
        },
{
    match text.parse::<xml::Element>() {
        Ok(root) => Some(copy_element(&root)),
        Err(_) => None,
    }
}

/// The element type of RustyXML.
#[verifier::external_type_specification]
#[verifier::external_body]
pub struct ExElement(xml::Element);

/// Copies a RustyXML element into the library's tree, one for one: name,
/// namespace, attributes, and children with their kinds. It serves the body
/// of `parse_xml`, whose contract covers the result. It recurses once per
/// level of nesting, as dropping a RustyXML element does.
#[verifier::external_body]
fn copy_element(e: &xml::Element) -> XmlElement {
    let attributes = e.attributes.iter().map(|((n, ns), v)| XmlAttribute {
        name: n.clone(), ns: ns.clone(), value: v.clone() }).collect();
    let children = e.children.iter().map(|c| match c {
        Xml::ElementNode(x) => XmlNode::Element(copy_element(x)),
        Xml::CharacterNode(t) => XmlNode::Characters(t.clone()),
        Xml::CDATANode(t) => XmlNode::CData(t.clone()),
        Xml::CommentNode(t) => XmlNode::Comment(t.clone()),
        Xml::PINode(t) => XmlNode::Instruction(t.clone()),
    }).collect();
    XmlElement { name: e.name.clone(), ns: e.ns.clone(), attributes, children }
}

} // verus!
