//! Queries on package (OPF) documents: element texts, `<meta>` values and
//! the cover item.

use crate::text::{is_ws, occurs_at, to_chars, trim, trim_chars, is_whitespace, matches_at, eq_ignore_case, eq_ignore_ascii_case, string_of};
use crate::xml::{attr, attribute, first_where, is_named, node_is_named, XmlNode, lemma_first_where_found, lemma_first_where_none};
use vstd::prelude::*;

verus! {

/// Whether `n` is an element named `name` whose text, trimmed, is not empty.
pub open spec fn has_text(n: XmlNode, name: Seq<char>) -> bool {
    is_named(n, name) && n.text is Some && trim(n.text->0@).len() > 0
}

/// The trimmed, non-empty texts of all elements named `name`, in order.
pub open spec fn element_texts(nodes: Seq<XmlNode>, name: Seq<char>) -> Seq<Seq<char>>
    decreases nodes.len(),
{
    if nodes.len() == 0 {
        Seq::empty()
    } else {
        let rest = element_texts(nodes.drop_last(), name);
        let n = nodes.last();
        if has_text(n, name) {
            rest.push(trim(n.text->0@))
        } else {
            rest
        }
    }
}

/// Without an element named `name` that has text, there are no texts.
pub proof fn lemma_element_texts_none(nodes: Seq<XmlNode>, name: Seq<char>)
    requires
        forall|j: int| 0 <= j < nodes.len() ==> !has_text(#[trigger] nodes[j], name),
    ensures
        element_texts(nodes, name).len() == 0,
    decreases nodes.len(),
{
    if nodes.len() > 0 {
        assert forall|j: int| 0 <= j < nodes.drop_last().len() implies !has_text(#[trigger] nodes.drop_last()[j], name) by {
            assert(nodes.drop_last()[j] == nodes[j]);
        }
        lemma_element_texts_none(nodes.drop_last(), name);
        assert(!has_text(nodes[nodes.len() - 1], name));
    }
}

/// The first of the texts is that of the first element named `name` that
/// has text.
pub proof fn lemma_element_texts_first(nodes: Seq<XmlNode>, name: Seq<char>, k: int)
    requires
        0 <= k < nodes.len(),
        has_text(nodes[k], name),
        forall|j: int| 0 <= j < k ==> !has_text(#[trigger] nodes[j], name),
    ensures
        element_texts(nodes, name).len() > 0,
        element_texts(nodes, name)[0] == trim(nodes[k].text->0@),
    decreases nodes.len(),
{
    let rest = nodes.drop_last();
    if k < nodes.len() - 1 {
        assert(rest[k] == nodes[k]);
        assert forall|j: int| 0 <= j < k implies !has_text(#[trigger] rest[j], name) by {
            assert(rest[j] == nodes[j]);
        }
        lemma_element_texts_first(rest, name, k);
    } else {
        assert forall|j: int| 0 <= j < rest.len() implies !has_text(#[trigger] rest[j], name) by {
            assert(rest[j] == nodes[j]);
        }
        lemma_element_texts_none(rest, name);
        assert(nodes.last() == nodes[k]);
    }
}

/// The trimmed text of the first element named `name`, when it is not empty.
pub open spec fn first_element_text(nodes: Seq<XmlNode>, name: Seq<char>) -> Option<Seq<char>> {
    match first_where(nodes, |n: XmlNode| is_named(n, name)) {
        None => None,
        Some(n) => match n.text {
            None => None,
            Some(t) => if trim(t@).len() > 0 {
                Some(trim(t@))
            } else {
                None
            },
        },
    }
}

/// Whether `n` is a `<meta>` element whose `name` attribute equals `key`
/// up to ASCII case.
pub open spec fn is_meta_for(n: XmlNode, key: Seq<char>) -> bool {
    is_named(n, "meta"@) && (attr(n, "name"@) matches Some(v) && eq_ignore_case(v, key))
}

/// The `content` of the first `<meta name=key>` element.
pub open spec fn meta_content(nodes: Seq<XmlNode>, key: Seq<char>) -> Option<Seq<char>> {
    match first_where(nodes, |n: XmlNode| is_meta_for(n, key)) {
        None => None,
        Some(n) => attr(n, "content"@),
    }
}

/// Whether `w` is one of the whitespace-separated words of `s`.
pub open spec fn has_word(s: Seq<char>, w: Seq<char>) -> bool {
    exists|i: int|
        #[trigger] occurs_at(s, w, i) && (i == 0 || is_ws(s[i - 1])) && (i + w.len() == s.len()
            || is_ws(s[i + w.len()]))
}

/// The trimmed, non-empty texts of all elements named `name`.
pub fn texts_of(nodes: &Vec<XmlNode>, name: &[char]) -> (r: Vec<String>)
    ensures
        r@.map_values(|s: String| s@) == element_texts(nodes@, name@),
{
    let mut r: Vec<String> = Vec::new();
    let mut i: usize = 0;
    assert(nodes@.take(0) =~= Seq::<XmlNode>::empty());
    assert(r@.map_values(|s: String| s@) =~= Seq::<Seq<char>>::empty());
    while i < nodes.len()
        invariant
            i <= nodes@.len(),
            r@.map_values(|s: String| s@) == element_texts(nodes@.take(i as int), name@),
        decreases nodes@.len() - i,
    {
        let n = &nodes[i];
        assert(nodes@.take(i + 1).drop_last() =~= nodes@.take(i as int));
        assert(nodes@.take(i + 1).last() == nodes@[i as int]);
        if node_is_named(n, name) {
            match &n.text {
                Some(t) => {
                    let tv = to_chars(t.as_str());
                    let trimmed = trim_chars(tv.as_slice());
                    if trimmed.len() > 0 {
                        let ghost before = r@.map_values(|s: String| s@);
                        r.push(string_of(trimmed.as_slice()));
                        assert(r@.map_values(|s: String| s@) =~= before.push(trimmed@));
                    }
                },
                None => {},
            }
        }
        i = i + 1;
    }
    assert(nodes@.take(nodes@.len() as int) =~= nodes@);
    r
}

/// The trimmed, non-empty text of the first element named `name`.
pub fn first_text_of(nodes: &Vec<XmlNode>, name: &[char]) -> (r: Option<String>)
    ensures
        match r {
            Some(s) => first_element_text(nodes@, name@) == Some(s@),
            None => first_element_text(nodes@, name@) is None,
        },
{
    match crate::xml::find_named(nodes, name) {
        None => None,
        Some(i) => match &nodes[i].text {
            None => None,
            Some(t) => {
                let tv = to_chars(t.as_str());
                let trimmed = trim_chars(tv.as_slice());
                if trimmed.len() > 0 {
                    Some(string_of(trimmed.as_slice()))
                } else {
                    None
                }
            },
        },
    }
}

/// Whether `n` is a `<meta name=key>` element.
fn node_is_meta_for(n: &XmlNode, key: &[char]) -> (r: bool)
    ensures
        r == is_meta_for(*n, key@),
{
    let meta = to_chars("meta");
    let name_key = to_chars("name");
    if !node_is_named(n, meta.as_slice()) {
        return false;
    }
    match attribute(n, name_key.as_slice()) {
        None => false,
        Some(v) => {
            let vv = to_chars(v.as_str());
            eq_ignore_ascii_case(vv.as_slice(), key)
        },
    }
}

/// The `content` of the first `<meta name=key>` element.
pub fn meta_of(nodes: &Vec<XmlNode>, key: &[char]) -> (r: Option<String>)
    ensures
        match r {
            Some(s) => meta_content(nodes@, key@) == Some(s@),
            None => meta_content(nodes@, key@) is None,
        },
{
    let ghost p = |n: XmlNode| is_meta_for(n, key@);
    let content = to_chars("content");
    let mut i: usize = 0;
    while i < nodes.len()
        invariant
            i <= nodes@.len(),
            p == (|n: XmlNode| is_meta_for(n, key@)),
            content@ == "content"@,
            forall|j: int| 0 <= j < i ==> !p(nodes@[j]),
        decreases nodes@.len() - i,
    {
        if node_is_meta_for(&nodes[i], key) {
            proof {
                lemma_first_where_found(nodes@, p, i as int);
            }
            return attribute(&nodes[i], content.as_slice());
        }
        i = i + 1;
    }
    proof {
        lemma_first_where_none(nodes@, p);
    }
    None
}

/// Whether `w` occurs in `s` at `i` as a whole word.
fn word_at(s: &[char], w: &[char], i: usize) -> (r: bool)
    requires
        i <= s@.len(),
    ensures
        r == (occurs_at(s@, w@, i as int) && (i == 0 || is_ws(s@[i - 1])) && (i + w@.len()
            == s@.len() || is_ws(s@[i + w@.len()]))),
{
    if !matches_at(s, w, i) {
        return false;
    }
    let before_ok = i == 0 || is_whitespace(s[i - 1]);
    let end = i + w.len();
    let after_ok = end == s.len() || is_whitespace(s[end]);
    before_ok && after_ok
}

/// Whether `w` is one of the whitespace-separated words of `s`.
pub fn contains_word(s: &[char], w: &[char]) -> (r: bool)
    ensures
        r == has_word(s@, w@),
{
    let mut i: usize = 0;
    while i < s.len()
        invariant
            i <= s@.len(),
            forall|j: int| 0 <= j < i ==> !(#[trigger] occurs_at(s@, w@, j) && (j == 0 || is_ws(s@[j - 1]))
                && (j + w@.len() == s@.len() || is_ws(s@[j + w@.len()]))),
        decreases s@.len() - i,
    {
        if word_at(s, w, i) {
            return true;
        }
        i = i + 1;
    }
    if word_at(s, w, s.len()) {
        return true;
    }
    assert forall|j: int| !(#[trigger] occurs_at(s@, w@, j) && (j == 0 || is_ws(s@[j - 1])) && (j
        + w@.len() == s@.len() || is_ws(s@[j + w@.len()]))) by {
        if 0 <= j <= s@.len() {
        } else {
            assert(!occurs_at(s@, w@, j));
        }
    }
    false
}

} // verus!
