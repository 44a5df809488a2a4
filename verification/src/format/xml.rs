//! XML property lists: the parsed document as a flat list of nodes, and the
//! lookup of a key in a dictionary.
use vstd::prelude::*;

use crate::text;
use crate::text::{chars_of, same_text};

verus! {

/// One node of a document, in document order. The first node is the document
/// itself.
#[derive(Debug)]
pub struct XmlNode {
    /// The place of the parent in the list.
    pub parent: Option<usize>,
    pub is_element: bool,
    /// The local name of an element.
    pub tag: String,
    /// The text of an element that begins with text, or of a text.
    pub text: Option<String>,
}

/// An `XmlNode` with its texts as sequences.
pub struct NodeView {
    pub parent: Option<usize>,
    pub is_element: bool,
    pub tag: Seq<char>,
    pub text: Option<Seq<char>>,
}

impl View for XmlNode {
    type V = NodeView;

    open spec fn view(&self) -> NodeView {
        NodeView { parent: self.parent, is_element: self.is_element, tag: self.tag@, text: text::opt_string(self.text) }
    }
}

/// The views of a list of nodes.
pub open spec fn node_views(v: Seq<XmlNode>) -> Seq<NodeView> {
    v.map_values(|n: XmlNode| n@)
}

/// The nodes that `roxmltree::Document::parse_with_options`, with document type
/// declarations allowed, makes of a text, or the text of its error.
pub uninterp spec fn parsed_nodes(xml: Seq<char>) -> Result<Seq<NodeView>, Seq<char>>;

/// The outcome of parsing.
pub open spec fn nodes_result(r: Result<Vec<XmlNode>, String>) -> Result<Seq<NodeView>, Seq<char>> {
    match r {
        Ok(v) => Ok(node_views(v@)),
        Err(s) => Err(s@),
    }
}

/// `roxmltree::Document::parse_with_options` with document type declarations
/// allowed, and every node of the document with its parent, its tag and its
/// text: what comes out depends on the text alone. Parsing goes deeper with
/// every level of elements, so the text must not nest too deep.
#[verifier::external_body]
pub(crate) fn parse_nodes(xml: &str) -> (r: Result<Vec<XmlNode>, String>)
    requires
        !nests_deeper(xml@, MAX_DEPTH as int),
    ensures
        nodes_result(r) == parsed_nodes(xml@),
{
    let opts = roxmltree::ParsingOptions { allow_dtd: true, ..roxmltree::ParsingOptions::default() };
    let doc = roxmltree::Document::parse_with_options(xml, opts).map_err(|e| e.to_string())?;
    Ok(doc.descendants().map(|n| XmlNode {
        parent: n.parent().map(|p| p.id().get_usize()),
        is_element: n.is_element(),
        tag: n.tag_name().name().to_owned(),
        text: n.text().map(|t| t.to_owned()),
    }).collect())
}

/// How deep elements may nest.
pub const MAX_DEPTH: usize = 64;

/// The depth of elements after one more character, `prev` being the one before
/// it: a tag that opens goes one down, one that closes, or closes itself, goes
/// one up.
pub open spec fn depth_after(depth: int, prev: char, c: char) -> int {
    if prev == '<' && c == '/' || prev == '/' && c == '>' {
        if depth > 0 { depth - 1 } else { 0 }
    } else if prev == '<' && c != '!' && c != '?' {
        depth + 1
    } else {
        depth
    }
}

/// The depth of elements after the first `n` characters.
pub open spec fn depth_at(xml: Seq<char>, n: int) -> int
    decreases n,
{
    if n <= 1 {
        0
    } else {
        depth_after(depth_at(xml, n - 1), xml[n - 2], xml[n - 1])
    }
}

/// Elements nest deeper than `max` somewhere in the text.
pub open spec fn nests_deeper(xml: Seq<char>, max: int) -> bool {
    exists|n: int| 0 <= n <= xml.len() && #[trigger] depth_at(xml, n) > max
}

/// Whether elements nest deeper than `max` somewhere in the text.
pub fn exceeds_nesting_depth(xml: &str, max: usize) -> (r: bool)
    ensures
        r == nests_deeper(xml@, max as int),
{
    let cs = chars_of(xml);
    let mut depth: usize = 0;
    let mut i: usize = 1;
    while i < cs.len()
        invariant
            1 <= i,
            cs.len() > 0 ==> i <= cs.len(),
            cs@ == xml@,
            depth <= max,
            depth == depth_at(xml@, i as int),
            forall|n: int| 0 <= n <= i ==> #[trigger] depth_at(xml@, n) <= max,
        decreases cs.len() - i,
    {
        let prev = cs[i - 1];
        let c = cs[i];
        if prev == '<' && c == '/' || prev == '/' && c == '>' {
            if depth > 0 {
                depth = depth - 1;
            }
        } else if prev == '<' && c != '!' && c != '?' {
            if depth == max {
                assert(depth_at(xml@, i + 1) == max + 1);
                return true;
            }
            depth = depth + 1;
        }
        i = i + 1;
        assert(depth == depth_at(xml@, i as int));
    }
    false
}

/// The elements below node `p`, in order, among the first `n` nodes.
pub open spec fn elements_below(nodes: Seq<NodeView>, p: int, n: int) -> Seq<int>
    decreases n,
{
    if n <= 0 {
        Seq::empty()
    } else {
        let before = elements_below(nodes, p, n - 1);
        if nodes[n - 1].is_element && (nodes[n - 1].parent matches Some(q) && q == p) {
            before.push(n - 1)
        } else {
            before
        }
    }
}

/// The elements directly below node `p`, in order.
pub open spec fn children(nodes: Seq<NodeView>, p: int) -> Seq<int> {
    elements_below(nodes, p, nodes.len() as int)
}

/// Whether a node is an element of that name.
pub open spec fn is_tag(node: NodeView, tag: Seq<char>) -> bool {
    node.is_element && node.tag == tag
}

/// The element after the first `<key>` of that text, from place `k` of a list of
/// elements on.
pub open spec fn value_from(nodes: Seq<NodeView>, list: Seq<int>, key: Seq<char>, k: int) -> Option<int>
    decreases list.len() - k,
{
    if k < 0 || k >= list.len() {
        None
    } else if is_tag(nodes[list[k]], "key"@) && nodes[list[k]].text == Some(key) {
        if k + 1 < list.len() {
            Some(list[k + 1])
        } else {
            None
        }
    } else {
        value_from(nodes, list, key, k + 1)
    }
}

/// The value of a key of a dictionary.
pub open spec fn dict_entry(nodes: Seq<NodeView>, dict: int, key: Seq<char>) -> Option<int> {
    value_from(nodes, children(nodes, dict), key, 0)
}

/// The elements directly below node `p`, in order.
pub fn child_elements(nodes: &Vec<XmlNode>, p: usize) -> (r: Vec<usize>)
    ensures
        r@.map_values(|x: usize| x as int) == children(node_views(nodes@), p as int),
        forall|k: int| 0 <= k < r.len() ==> r@[k] < nodes.len(),
{
    let ghost all = node_views(nodes@);
    let mut out: Vec<usize> = Vec::new();
    let mut i: usize = 0;
    assert(out@.map_values(|x: usize| x as int) =~= elements_below(all, p as int, 0));
    while i < nodes.len()
        invariant
            i <= nodes.len(),
            all == node_views(nodes@),
            out@.map_values(|x: usize| x as int) == elements_below(all, p as int, i as int),
            forall|k: int| 0 <= k < out.len() ==> out@[k] < i,
        decreases nodes.len() - i,
    {
        let mine = match nodes[i].parent {
            Some(q) => q == p,
            None => false,
        };
        assert(all[i as int] == nodes@[i as int]@);
        if nodes[i].is_element && mine {
            let ghost before = out@;
            out.push(i);
            assert(out@.map_values(|x: usize| x as int) =~= before.map_values(|x: usize| x as int).push(i as int));
        }
        i = i + 1;
    }
    out
}

/// Whether a node is an element of that name.
pub fn has_tag(node: &XmlNode, tag: &str) -> (r: bool)
    ensures
        r == is_tag(node@, tag@),
{
    node.is_element && same_text(node.tag.as_str(), tag)
}

/// The value of a key of a dictionary.
pub fn dict_value(nodes: &Vec<XmlNode>, dict: usize, key: &str) -> (r: Option<usize>)
    ensures
        match r {
            Some(v) => v < nodes.len() && dict_entry(node_views(nodes@), dict as int, key@) == Some(v as int),
            None => dict_entry(node_views(nodes@), dict as int, key@) is None,
        },
{
    let list = child_elements(nodes, dict);
    let ghost all = node_views(nodes@);
    let ghost ints = list@.map_values(|x: usize| x as int);
    let mut k: usize = 0;
    while k < list.len()
        invariant
            k <= list.len(),
            all == node_views(nodes@),
            ints == list@.map_values(|x: usize| x as int),
            ints == children(all, dict as int),
            forall|j: int| 0 <= j < list.len() ==> list@[j] < nodes.len(),
            dict_entry(all, dict as int, key@) == value_from(all, ints, key@, k as int),
        decreases list.len() - k,
    {
        let node = &nodes[list[k]];
        assert(all[ints[k as int]] == node@);
        let named = match &node.text {
            Some(t) => same_text(t.as_str(), key),
            None => false,
        };
        if has_tag(node, "key") && named {
            return if k + 1 < list.len() {
                Some(list[k + 1])
            } else {
                None
            };
        }
        k = k + 1;
    }
    None
}

/// The children of a node are the elements that have it as their parent, all of them, in
/// the order of the text.
pub proof fn children_have_their_parent(nodes: Seq<NodeView>, p: int, n: int)
    requires
        0 <= n <= nodes.len(),
    ensures
        forall|k: int|
            0 <= k < elements_below(nodes, p, n).len() ==> 0 <= (#[trigger] elements_below(nodes, p, n)[k]) < n
                && nodes[elements_below(nodes, p, n)[k]].is_element && (nodes[elements_below(nodes, p, n)[k]].parent matches Some(
                q,
            ) && q == p),
        forall|j: int, k: int|
            0 <= j < k < elements_below(nodes, p, n).len() ==> elements_below(nodes, p, n)[j] < elements_below(nodes, p, n)[k],
        forall|i: int|
            0 <= i < n && (#[trigger] nodes[i]).is_element && (nodes[i].parent matches Some(q) && q == p)
                ==> elements_below(nodes, p, n).contains(i),
    decreases n,
{
    if n > 0 {
        children_have_their_parent(nodes, p, n - 1);
        let before = elements_below(nodes, p, n - 1);
        let all = elements_below(nodes, p, n);
        assert forall|i: int| 0 <= i < n && (#[trigger] nodes[i]).is_element && (nodes[i].parent matches Some(q) && q == p) implies all.contains(
            i,
        ) by {
            if i < n - 1 {
                assert(before.contains(i));
                let k = choose|k: int| 0 <= k < before.len() && before[k] == i;
                assert(all[k] == i);
            } else {
                assert(all.last() == n - 1);
                assert(all[all.len() - 1] == n - 1);
            }
        }
    }
}

/// The value of a key is the element right behind the first key of that name.
pub proof fn values_follow_their_keys(nodes: Seq<NodeView>, list: Seq<int>, key: Seq<char>, k: int, from: int)
    requires
        0 <= from <= k < list.len(),
        nodes[list[k]].is_element && nodes[list[k]].tag == "key"@ && nodes[list[k]].text == Some(key),
        forall|j: int|
            from <= j < k ==> !(nodes[#[trigger] list[j]].is_element && nodes[list[j]].tag == "key"@ && nodes[list[j]].text
                == Some(key)),
    ensures
        value_from(nodes, list, key, from) == if k + 1 < list.len() { Some(list[k + 1]) } else { None },
    decreases k - from,
{
    if from < k {
        values_follow_their_keys(nodes, list, key, k, from + 1);
    }
}

} // verus!
