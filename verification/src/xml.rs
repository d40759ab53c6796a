//! XML documents as the flat list of nodes that `roxmltree` yields, and the
//! queries that the library makes of them.

use crate::text::{chars_eq, eq_ignore_ascii_case, eq_ignore_case, to_chars};
use vstd::prelude::*;

verus! {

/// One attribute of an element.
pub struct XmlAttribute {
    pub namespace: Option<String>,
    pub name: String,
    pub value: String,
}

/// One node of a document, in document order: its kind, local tag name,
/// attributes and the text of its first child when that child is text.
pub struct XmlNode {
    pub is_element: bool,
    pub name: String,
    pub attributes: Vec<XmlAttribute>,
    pub text: Option<String>,
}

/// The nodes that `roxmltree` yields for `text` in document order
/// (`Document::descendants`), or `None` when `text` is not well-formed XML.
pub uninterp spec fn xml_document(text: Seq<char>) -> Option<Seq<XmlNode>>;

/// The message that `roxmltree::Error`'s `Display` writes for the error
/// that `Document::parse` returns on `text` (its kind and text position).
pub uninterp spec fn xml_parse_error(text: Seq<char>) -> Seq<char>;

/// Parses `text` with `roxmltree::Document::parse` and lists its nodes with
/// `descendants`; the contract claims that the list is the one named by
/// `xml_document`, each node taken field by field, and that a parse error
/// comes back as the message named by `xml_parse_error`.
#[verifier::external_body]
pub(crate) fn parse_xml(text: &str) -> (r: Result<Vec<XmlNode>, String>)
    ensures
        match r {
            Ok(v) => xml_document(text@) == Some(v@),
            Err(m) => xml_document(text@) is None && m@ == xml_parse_error(text@),
        },
{
    roxmltree::Document::parse(text).map(|doc| doc.descendants().map(|n| XmlNode {
        is_element: n.is_element(),
        name: n.tag_name().name().to_string(),
        attributes: n.attributes().map(|a| XmlAttribute {
            namespace: a.namespace().map(str::to_string),
            name: a.name().to_string(),
            value: a.value().to_string(),
        }).collect(),
        text: n.text().map(str::to_string),
    }).collect()).map_err(|e| e.to_string())
}

/// The value of the first attribute without namespace whose local name is
/// `key`, as `Node::attribute(key)` finds it.
pub open spec fn attr_value(attrs: Seq<XmlAttribute>, key: Seq<char>) -> Option<Seq<char>>
    decreases attrs.len(),
{
    if attrs.len() == 0 {
        None
    } else if attrs[0].namespace is None && attrs[0].name@ == key {
        Some(attrs[0].value@)
    } else {
        attr_value(attrs.drop_first(), key)
    }
}

pub open spec fn attr(n: XmlNode, key: Seq<char>) -> Option<Seq<char>> {
    attr_value(n.attributes@, key)
}

/// Whether `n` is an element whose local name equals `name` up to ASCII case.
pub open spec fn is_named(n: XmlNode, name: Seq<char>) -> bool {
    n.is_element && eq_ignore_case(n.name@, name)
}

/// The first node that satisfies `p`.
pub open spec fn first_where(nodes: Seq<XmlNode>, p: spec_fn(XmlNode) -> bool) -> Option<XmlNode>
    decreases nodes.len(),
{
    if nodes.len() == 0 {
        None
    } else if p(nodes[0]) {
        Some(nodes[0])
    } else {
        first_where(nodes.drop_first(), p)
    }
}

pub proof fn lemma_first_where_found(nodes: Seq<XmlNode>, p: spec_fn(XmlNode) -> bool, i: int)
    requires
        0 <= i < nodes.len(),
        p(nodes[i]),
        forall|j: int| 0 <= j < i ==> !p(nodes[j]),
    ensures
        first_where(nodes, p) == Some(nodes[i]),
    decreases i,
{
    if i > 0 {
        assert forall|j: int| 0 <= j < i - 1 implies !p(nodes.drop_first()[j]) by {
            assert(nodes.drop_first()[j] == nodes[j + 1]);
        }
        lemma_first_where_found(nodes.drop_first(), p, i - 1);
    }
}

pub proof fn lemma_first_where_none(nodes: Seq<XmlNode>, p: spec_fn(XmlNode) -> bool)
    requires
        forall|j: int| 0 <= j < nodes.len() ==> !p(nodes[j]),
    ensures
        first_where(nodes, p) is None,
    decreases nodes.len(),
{
    if nodes.len() > 0 {
        assert forall|j: int| 0 <= j < nodes.len() - 1 implies !p(nodes.drop_first()[j]) by {
            assert(nodes.drop_first()[j] == nodes[j + 1]);
        }
        lemma_first_where_none(nodes.drop_first(), p);
    }
}

/// The characters of `s`.
pub fn chars_of(s: &String) -> (v: Vec<char>)
    ensures
        v@ == s@,
{
    to_chars(s.as_str())
}

/// `Node::attribute(key)`.
pub fn attribute(n: &XmlNode, key: &[char]) -> (r: Option<String>)
    ensures
        match r {
            Some(v) => attr(*n, key@) == Some(v@),
            None => attr(*n, key@) is None,
        },
{
    let attrs = &n.attributes;
    let mut i: usize = 0;
    assert(attrs@.skip(0) =~= attrs@);
    while i < attrs.len()
        invariant
            i <= attrs@.len(),
            attrs@ == n.attributes@,
            attr_value(attrs@, key@) == attr_value(attrs@.skip(i as int), key@),
        decreases attrs@.len() - i,
    {
        let a = &attrs[i];
        let name = chars_of(&a.name);
        assert(attrs@.skip(i as int)[0] == attrs@[i as int]);
        if a.namespace.is_none() && chars_eq(name.as_slice(), key) {
            return Some(a.value.clone());
        }
        assert(attrs@.skip(i as int).drop_first() =~= attrs@.skip(i + 1));
        i = i + 1;
    }
    assert(attrs@.skip(i as int).len() == 0);
    None
}

/// Whether `n` is an element named `name`, ignoring ASCII case.
pub fn node_is_named(n: &XmlNode, name: &[char]) -> (r: bool)
    ensures
        r == is_named(*n, name@),
{
    if !n.is_element {
        return false;
    }
    let tag = chars_of(&n.name);
    eq_ignore_ascii_case(tag.as_slice(), name)
}

/// The index of the first element named `name`, ignoring ASCII case.
pub fn find_named(nodes: &Vec<XmlNode>, name: &[char]) -> (r: Option<usize>)
    ensures
        match r {
            Some(i) => i < nodes@.len() && first_where(nodes@, |n: XmlNode| is_named(n, name@))
                == Some(nodes@[i as int]),
            None => first_where(nodes@, |n: XmlNode| is_named(n, name@)) is None,
        },
{
    let ghost p = |n: XmlNode| is_named(n, name@);
    let mut i: usize = 0;
    while i < nodes.len()
        invariant
            i <= nodes@.len(),
            p == (|n: XmlNode| is_named(n, name@)),
            forall|j: int| 0 <= j < i ==> !p(nodes@[j]),
        decreases nodes@.len() - i,
    {
        if node_is_named(&nodes[i], name) {
            proof {
                lemma_first_where_found(nodes@, p, i as int);
            }
            return Some(i);
        }
        i = i + 1;
    }
    proof {
        lemma_first_where_none(nodes@, p);
    }
    None
}

} // verus!
