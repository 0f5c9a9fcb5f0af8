//! XML: reading parsed documents with .NET `DataContractSerializer` semantics, and writing a
//! simple element tree the way .NET's `XDocument.Save` prints it.

use crate::text::{append_chars, chars_of, string_of};
use vstd::prelude::*;

verus! {

/// A simple element tree for writing.
#[derive(Debug)]
pub struct XElement {
    pub name: String,
    pub attrs: Vec<(String, String)>,
    pub text: Option<String>,
    pub children: Vec<XElement>,
}

/// `c`, escaped as XML text (or as an attribute value, which also escapes `"`).
pub open spec fn escape_char(c: char, attribute: bool) -> Seq<char> {
    if c == '&' {
        seq!['&', 'a', 'm', 'p', ';']
    } else if c == '<' {
        seq!['&', 'l', 't', ';']
    } else if c == '>' {
        seq!['&', 'g', 't', ';']
    } else if c == '"' && attribute {
        seq!['&', 'q', 'u', 'o', 't', ';']
    } else {
        seq![c]
    }
}

/// `s` with the XML special characters escaped.
pub open spec fn escaped(s: Seq<char>, attribute: bool) -> Seq<char>
    decreases s.len(),
{
    if s.len() == 0 {
        Seq::empty()
    } else {
        escaped(s.drop_last(), attribute) + escape_char(s.last(), attribute)
    }
}

/// Two spaces per level.
pub open spec fn indent(depth: nat) -> Seq<char> {
    Seq::new(2 * depth, |i: int| ' ')
}

/// ` k="v"` for each attribute.
pub open spec fn attrs_text(attrs: Seq<(String, String)>) -> Seq<char>
    decreases attrs.len(),
{
    if attrs.len() == 0 {
        Seq::empty()
    } else {
        attrs_text(attrs.drop_last()) + seq![' '] + attrs.last().0@ + seq!['=', '"']
            + escaped(attrs.last().1@, true) + seq!['"']
    }
}

/// The element's text, or nothing.
pub open spec fn text_of(e: XElement) -> Seq<char> {
    match e.text {
        Some(t) => t@,
        None => Seq::empty(),
    }
}

/// An element printed at an indentation depth: empty elements as `<name />`, text-only ones on
/// one line, others with one child per line.
pub open spec fn pretty(e: XElement, depth: nat) -> Seq<char>
    decreases e,
{
    let open = indent(depth) + seq!['<'] + e.name@ + attrs_text(e.attrs@);
    if e.children@.len() == 0 && text_of(e).len() == 0 {
        open + seq![' ', '/', '>', '\n']
    } else {
        let body = if e.children@.len() == 0 {
            escaped(text_of(e), false)
        } else {
            seq!['\n'] + pretty_list(e.children@, depth + 1) + indent(depth)
        };
        open + seq!['>'] + body + seq!['<', '/'] + e.name@ + seq!['>', '\n']
    }
}

/// Elements printed one after another at a depth.
pub open spec fn pretty_list(es: Seq<XElement>, depth: nat) -> Seq<char>
    decreases es,
{
    if es.len() == 0 {
        Seq::empty()
    } else {
        pretty_list(es.drop_last(), depth) + pretty(es.last(), depth)
    }
}

/// The number of levels of elements.
pub open spec fn height(e: XElement) -> nat
    decreases e,
{
    1 + height_list(e.children@)
}

pub open spec fn height_list(es: Seq<XElement>) -> nat
    decreases es,
{
    if es.len() == 0 {
        0
    } else {
        let a = height_list(es.drop_last());
        let b = height(es.last());
        if a > b {
            a
        } else {
            b
        }
    }
}

proof fn lemma_height_list(es: Seq<XElement>, i: int)
    requires
        0 <= i < es.len(),
    ensures
        height(es[i]) <= height_list(es),
    decreases es.len(),
{
    if i < es.len() - 1 {
        lemma_height_list(es.drop_last(), i);
    }
}

impl XElement {
    pub fn new(name: &str) -> (r: XElement)
        ensures
            r.name@ == name@,
            r.attrs@.len() == 0,
            r.text is None,
            r.children@.len() == 0,
    {
        XElement { name: name.to_owned(), attrs: Vec::new(), text: None, children: Vec::new() }
    }

    pub fn with_text(name: &str, text: &str) -> (r: XElement)
        ensures
            r.name@ == name@,
            r.attrs@.len() == 0,
            r.text matches Some(t) && t@ == text@,
            r.children@.len() == 0,
    {
        XElement {
            name: name.to_owned(),
            attrs: Vec::new(),
            text: Some(text.to_owned()),
            children: Vec::new(),
        }
    }

    /// An element marked as null, DataContract style (`i:nil="true"`).
    pub fn nil(name: &str) -> (r: XElement)
        ensures
            r.name@ == name@,
            r.attrs@.len() == 1,
            r.attrs@[0].0@ == seq!['i', ':', 'n', 'i', 'l'],
            r.attrs@[0].1@ == seq!['t', 'r', 'u', 'e'],
            r.text is None,
            r.children@.len() == 0,
    {
        proof {
            reveal_strlit("i:nil");
            reveal_strlit("true");
        }
        XElement::new(name).attr("i:nil", "true")
    }

    pub fn attr(self, k: &str, v: &str) -> (r: XElement)
        ensures
            r.name == self.name,
            r.attrs@.len() == self.attrs@.len() + 1,
            r.attrs@.take(self.attrs@.len() as int) == self.attrs@,
            r.attrs@.last().0@ == k@,
            r.attrs@.last().1@ == v@,
            r.text == self.text,
            r.children == self.children,
    {
        let mut r = self;
        r.attrs.push((k.to_owned(), v.to_owned()));
        assert(r.attrs@.take(self.attrs@.len() as int) =~= self.attrs@);
        r
    }

    pub fn child(self, c: XElement) -> (r: XElement)
        ensures
            r.name == self.name,
            r.attrs == self.attrs,
            r.text == self.text,
            r.children@ == self.children@.push(c),
    {
        let mut r = self;
        r.children.push(c);
        r
    }

    pub fn push(&mut self, c: XElement)
        ensures
            final(self).name == old(self).name,
            final(self).attrs == old(self).attrs,
            final(self).text == old(self).text,
            final(self).children@ == old(self).children@.push(c),
    {
        self.children.push(c);
    }

    /// Serializes with two-space indentation (as .NET's `XDocument.Save` does).
    pub fn to_pretty_string(&self) -> (r: String)
        requires
            height(*self) < usize::MAX,
        ensures
            r@ == pretty(*self, 0),
    {
        let mut out: Vec<char> = Vec::new();
        self.write(&mut out, 0);
        string_of(&out)
    }

    fn write(&self, out: &mut Vec<char>, depth: usize)
        requires
            depth + height(*self) <= usize::MAX,
        ensures
            final(out)@ == old(out)@ + pretty(*self, depth as nat),
        decreases self,
    {
        let ghost start = out@;
        push_indent(out, depth);
        out.push('<');
        append_chars(out, &chars_of(self.name.as_str()));
        let mut i: usize = 0;
        while i < self.attrs.len()
            invariant
                0 <= i <= self.attrs@.len(),
                out@ == start + indent(depth as nat) + seq!['<'] + self.name@ + attrs_text(
                    self.attrs@.take(i as int),
                ),
            decreases self.attrs.len() - i,
        {
            let ghost before = out@;
            out.push(' ');
            append_chars(out, &chars_of(self.attrs[i].0.as_str()));
            out.push('=');
            out.push('"');
            push_escaped(out, &chars_of(self.attrs[i].1.as_str()), true);
            out.push('"');
            assert(self.attrs@.take(i + 1).drop_last() =~= self.attrs@.take(i as int));
            i = i + 1;
            assert(out@ =~= before + (seq![' '] + self.attrs@[i - 1].0@ + seq!['=', '"']
                + escaped(self.attrs@[i - 1].1@, true) + seq!['"']));
        }
        assert(self.attrs@.take(self.attrs@.len() as int) =~= self.attrs@);
        let ghost open = out@;
        let text: Vec<char> = match &self.text {
            Some(t) => chars_of(t.as_str()),
            None => Vec::new(),
        };
        assert(text@ == text_of(*self));
        if self.children.len() == 0 && text.len() == 0 {
            out.push(' ');
            out.push('/');
            out.push('>');
            out.push('\n');
            assert(out@ =~= start + pretty(*self, depth as nat));
            return;
        }
        out.push('>');
        if self.children.len() == 0 {
            push_escaped(out, &text, false);
        } else {
            out.push('\n');
            let ghost mid = out@;
            let mut j: usize = 0;
            while j < self.children.len()
                invariant
                    0 <= j <= self.children@.len(),
                    depth + height(*self) <= usize::MAX,
                    out@ == mid + pretty_list(self.children@.take(j as int), depth as nat + 1),
                decreases self.children.len() - j,
            {
                proof {
                    lemma_height_list(self.children@, j as int);
                }
                let ghost before = out@;
                self.children[j].write(out, depth + 1);
                assert(self.children@.take(j + 1).drop_last() =~= self.children@.take(j as int));
                j = j + 1;
                assert(out@ =~= before + pretty(self.children@[j - 1], depth as nat + 1));
            }
            assert(self.children@.take(self.children@.len() as int) =~= self.children@);
            push_indent(out, depth);
        }
        out.push('<');
        out.push('/');
        append_chars(out, &chars_of(self.name.as_str()));
        out.push('>');
        out.push('\n');
        assert(out@ =~= start + pretty(*self, depth as nat));
    }
}

fn push_indent(out: &mut Vec<char>, depth: usize)
    ensures
        final(out)@ == old(out)@ + indent(depth as nat),
{
    let mut i: usize = 0;
    while i < depth
        invariant
            0 <= i <= depth,
            out@ == old(out)@ + indent(i as nat),
        decreases depth - i,
    {
        out.push(' ');
        out.push(' ');
        i = i + 1;
        assert(out@ =~= old(out)@ + indent(i as nat));
    }
}

/// `s` with the XML special characters escaped.
pub fn escape(s: &str, attribute: bool) -> (r: String)
    ensures
        r@ == escaped(s@, attribute),
{
    let mut out: Vec<char> = Vec::new();
    push_escaped(&mut out, &chars_of(s), attribute);
    string_of(&out)
}

/// Appends one character, escaped.
fn push_escaped_char(out: &mut Vec<char>, c: char, attribute: bool)
    ensures
        final(out)@ == old(out)@ + escape_char(c, attribute),
{
    if c == '&' {
        out.push('&');
        out.push('a');
        out.push('m');
        out.push('p');
        out.push(';');
    } else if c == '<' {
        out.push('&');
        out.push('l');
        out.push('t');
        out.push(';');
    } else if c == '>' {
        out.push('&');
        out.push('g');
        out.push('t');
        out.push(';');
    } else if c == '"' && attribute {
        out.push('&');
        out.push('q');
        out.push('u');
        out.push('o');
        out.push('t');
        out.push(';');
    } else {
        out.push(c);
    }
    assert(final(out)@ =~= old(out)@ + escape_char(c, attribute));
}

/// Appends `s` with the XML special characters escaped.
pub fn push_escaped(out: &mut Vec<char>, s: &[char], attribute: bool)
    ensures
        final(out)@ == old(out)@ + escaped(s@, attribute),
{
    let mut i: usize = 0;
    while i < s.len()
        invariant
            0 <= i <= s@.len(),
            out@ == old(out)@ + escaped(s@.take(i as int), attribute),
        decreases s.len() - i,
    {
        let ghost before = out@;
        push_escaped_char(out, s[i], attribute);
        assert(s@.take(i + 1).drop_last() =~= s@.take(i as int));
        assert(out@ =~= before + escape_char(s@[i as int], attribute));
        i = i + 1;
    }
    assert(s@.take(s@.len() as int) =~= s@);
}

/// The XML Schema instance namespace, which holds `nil`.
pub const XSI_NS: &'static str = "http://www.w3.org/2001/XMLSchema-instance";

/// An attribute of a parsed element.
#[derive(Clone, Debug)]
pub struct XmlAttribute {
    pub namespace: Option<String>,
    pub name: String,
    pub value: String,
}

/// One node of a parsed document, in document order. The root node comes first.
#[derive(Clone, Debug)]
pub struct XmlNode {
    pub element: bool,
    pub is_text: bool,
    /// The local name of an element (empty for other nodes).
    pub name: String,
    /// The text of a text node.
    pub text: Option<String>,
    /// The index of the parent node (`None` for the root).
    pub parent: Option<usize>,
    pub attributes: Vec<XmlAttribute>,
}

/// What `roxmltree` makes of a document: its nodes in document order, or the error message.
pub uninterp spec fn parsed_xml(text: Seq<char>) -> Result<Seq<XmlNode>, Seq<char>>;

/// Parents come before their children, starting with the root.
pub open spec fn parents_first(nodes: Seq<XmlNode>) -> bool {
    &&& nodes.len() >= 1
    &&& nodes[0].parent is None
    &&& forall|i: int| #![trigger nodes[i]] 1 <= i < nodes.len() ==> (nodes[i].parent matches Some(p) && p < i)
}

/// Parses a document with `roxmltree::Document::parse`, listing its nodes (`descendants` of the
/// root, whose indices are the node ids). Claims only that the nodes are those `roxmltree`
/// produces, and that each node's parent comes before it (`roxmltree` appends a node after its
/// parent, and the root is node 0).
#[verifier::external_body]
fn parse_xml_nodes(text: &str) -> (r: Result<Vec<XmlNode>, String>)
    ensures
        match (r, parsed_xml(text@)) {
            (Ok(n), Ok(m)) => n@ == m && parents_first(m),
            (Err(e), Err(m)) => e@ == m,
            _ => false,
        },
{
    let doc = roxmltree::Document::parse(text).map_err(|e| e.to_string())?;
    Ok(doc.descendants().map(|n| XmlNode {
        element: n.is_element(),
        is_text: n.is_text(),
        name: n.tag_name().name().to_string(),
        text: n.text().map(|t| t.to_string()),
        parent: n.parent().map(|p| p.id().get_usize()),
        attributes: n.attributes().map(|a| XmlAttribute {
            namespace: a.namespace().map(|s| s.to_string()),
            name: a.name().to_string(),
            value: a.value().to_string(),
        }).collect(),
    }).collect())
}

/// A parsed document.
pub struct XmlDocument {
    pub nodes: Vec<XmlNode>,
}

/// Whether node `a` is `i` or one of its ancestors.
pub open spec fn ancestor_or_self(nodes: Seq<XmlNode>, a: int, i: int) -> bool
    decreases i,
{
    if i == a {
        true
    } else if 0 <= i < nodes.len() {
        match nodes[i].parent {
            Some(p) => if p < i {
                ancestor_or_self(nodes, a, p as int)
            } else {
                false
            },
            None => false,
        }
    } else {
        false
    }
}

/// The text a node contributes to its ancestors' text.
pub open spec fn own_text(n: XmlNode) -> Seq<char> {
    if n.is_text {
        match n.text {
            Some(t) => t@,
            None => Seq::empty(),
        }
    } else {
        Seq::empty()
    }
}

/// All the text within node `a`, from its nodes among the first `end`.
pub open spec fn text_upto(nodes: Seq<XmlNode>, a: int, end: int) -> Seq<char>
    decreases end,
{
    if end <= 0 {
        Seq::empty()
    } else {
        text_upto(nodes, a, end - 1) + if ancestor_or_self(nodes, a, end - 1) {
            own_text(nodes[end - 1])
        } else {
            Seq::empty()
        }
    }
}

/// All the text within a node (the text of its text descendants, in order).
pub open spec fn node_text(nodes: Seq<XmlNode>, a: int) -> Seq<char> {
    text_upto(nodes, a, nodes.len() as int)
}

/// The element children of `a` named `name`, in order, among the first `end` nodes.
pub open spec fn children_upto(nodes: Seq<XmlNode>, a: int, name: Seq<char>, end: int) -> Seq<usize>
    decreases end,
{
    if end <= 0 {
        Seq::empty()
    } else {
        let prev = children_upto(nodes, a, name, end - 1);
        let n = nodes[end - 1];
        if n.element && n.parent == Some(a as usize) && n.name@ == name {
            prev.push((end - 1) as usize)
        } else {
            prev
        }
    }
}

/// The element children of `a` named `name`, in order.
pub open spec fn children_named(nodes: Seq<XmlNode>, a: int, name: Seq<char>) -> Seq<usize> {
    children_upto(nodes, a, name, nodes.len() as int)
}

/// The element children of `a`, in order, among the first `end` nodes.
pub open spec fn elements_upto(nodes: Seq<XmlNode>, a: int, end: int) -> Seq<usize>
    decreases end,
{
    if end <= 0 {
        Seq::empty()
    } else {
        let prev = elements_upto(nodes, a, end - 1);
        let n = nodes[end - 1];
        if n.element && n.parent == Some(a as usize) {
            prev.push((end - 1) as usize)
        } else {
            prev
        }
    }
}

/// The element children of `a`, in order.
pub open spec fn element_children(nodes: Seq<XmlNode>, a: int) -> Seq<usize> {
    elements_upto(nodes, a, nodes.len() as int)
}

/// The value of the attribute of node `n` with a namespace and name, among its first `end`.
pub open spec fn attribute_upto(
    attrs: Seq<XmlAttribute>,
    namespace: Option<Seq<char>>,
    name: Seq<char>,
    end: int,
) -> Option<Seq<char>>
    decreases end,
{
    if end <= 0 {
        None
    } else {
        let a = attrs[end - 1];
        let ns_matches = match (a.namespace, namespace) {
            (None, None) => true,
            (Some(x), Some(y)) => x@ == y,
            _ => false,
        };
        match attribute_upto(attrs, namespace, name, end - 1) {
            Some(v) => Some(v),
            None => if ns_matches && a.name@ == name {
                Some(a.value@)
            } else {
                None
            },
        }
    }
}

proof fn lemma_attribute_upto_found(
    attrs: Seq<XmlAttribute>,
    namespace: Option<Seq<char>>,
    name: Seq<char>,
    k: int,
    end: int,
)
    requires
        k <= end,
        attribute_upto(attrs, namespace, name, k) is Some,
    ensures
        attribute_upto(attrs, namespace, name, end) == attribute_upto(attrs, namespace, name, k),
    decreases end - k,
{
    if k < end {
        lemma_attribute_upto_found(attrs, namespace, name, k, end - 1);
    }
}

/// The value of the first attribute of a node with a namespace and name.
pub open spec fn attribute_value(n: XmlNode, namespace: Option<Seq<char>>, name: Seq<char>) -> Option<
    Seq<char>,
> {
    attribute_upto(n.attributes@, namespace, name, n.attributes@.len() as int)
}

proof fn lemma_elements_upto_bound(nodes: Seq<XmlNode>, a: int, end: int)
    requires
        0 <= end <= usize::MAX,
    ensures
        forall|i: int|
            0 <= i < elements_upto(nodes, a, end).len() ==> #[trigger] elements_upto(nodes, a, end)[i]
                < end,
    decreases end,
{
    if end > 0 {
        lemma_elements_upto_bound(nodes, a, end - 1);
        let prev = elements_upto(nodes, a, end - 1);
        assert((end - 1) as usize == end - 1);
        assert forall|i: int|
            0 <= i < elements_upto(nodes, a, end).len() implies #[trigger] elements_upto(
            nodes,
            a,
            end,
        )[i] < end by {
            if i < prev.len() {
                assert(elements_upto(nodes, a, end)[i] == prev[i]);
            }
        }
    }
}

/// The first member at or after `j` with a name.
pub open spec fn member_from(members: Seq<Seq<char>>, name: Seq<char>, j: int) -> Option<usize>
    decreases members.len() - j,
{
    if j < 0 || j >= members.len() {
        None
    } else if members[j] == name {
        Some(j as usize)
    } else {
        member_from(members, name, j + 1)
    }
}

/// In-order matching of the elements `kids` against `members`: the matched
/// (member index, node) pairs, and the index of the last member matched.
pub open spec fn matched_members(nodes: Seq<XmlNode>, kids: Seq<usize>, members: Seq<Seq<char>>) -> (
    Seq<(usize, usize)>,
    Option<usize>,
)
    decreases kids.len(),
{
    if kids.len() == 0 {
        (Seq::empty(), None)
    } else {
        let (found, current) = matched_members(nodes, kids.drop_last(), members);
        let start = match current {
            Some(c) => c + 1,
            None => 0,
        };
        let kid = kids.last();
        match member_from(members, nodes[kid as int].name@, start) {
            Some(j) => (found.push((j, kid)), Some(j)),
            None => (found, current),
        }
    }
}

impl XmlDocument {
    pub open spec fn wf(&self) -> bool {
        parents_first(self.nodes@)
    }

    /// Parses a document (with `roxmltree`).
    pub fn parse(text: &str) -> (r: Result<XmlDocument, String>)
        ensures
            match (r, parsed_xml(text@)) {
                (Ok(d), Ok(m)) => d.nodes@ == m && d.wf(),
                (Err(e), Err(m)) => e@ == m,
                _ => false,
            },
    {
        match parse_xml_nodes(text) {
            Ok(nodes) => Ok(XmlDocument { nodes }),
            Err(e) => Err(e),
        }
    }

    /// The first element child of the root.
    pub fn root_element(&self) -> (r: Option<usize>)
        ensures
            r == (if element_children(self.nodes@, 0).len() > 0 {
                Some(element_children(self.nodes@, 0)[0])
            } else {
                None
            }),
    {
        let kids = self.element_children(0);
        if kids.len() > 0 {
            Some(kids[0])
        } else {
            None
        }
    }

    /// The element children of a node, in order.
    pub fn element_children(&self, node: usize) -> (r: Vec<usize>)
        ensures
            r@ == element_children(self.nodes@, node as int),
    {
        let mut r: Vec<usize> = Vec::new();
        let mut i: usize = 0;
        while i < self.nodes.len()
            invariant
                0 <= i <= self.nodes@.len(),
                r@ == elements_upto(self.nodes@, node as int, i as int),
            decreases self.nodes.len() - i,
        {
            if self.nodes[i].element && self.nodes[i].parent == Some(node) {
                r.push(i);
            }
            i = i + 1;
        }
        r
    }

    /// The element children of a node with a name, in order.
    pub fn children(&self, node: usize, name: &str) -> (r: Vec<usize>)
        ensures
            r@ == children_named(self.nodes@, node as int, name@),
    {
        let target = chars_of(name);
        let mut r: Vec<usize> = Vec::new();
        let mut i: usize = 0;
        while i < self.nodes.len()
            invariant
                0 <= i <= self.nodes@.len(),
                target@ == name@,
                r@ == children_upto(self.nodes@, node as int, name@, i as int),
            decreases self.nodes.len() - i,
        {
            let n = &self.nodes[i];
            if n.element && n.parent == Some(node) && chars_equal(&chars_of(n.name.as_str()), &target) {
                r.push(i);
            }
            i = i + 1;
        }
        r
    }

    /// Reads the members of a DataContract-serialized object the way .NET does: `members` must
    /// be in serialization order, and elements are matched in that order. An element naming a
    /// member before the last one matched is ignored, as is any unknown element.
    ///
    /// Returns the matched (member index, element) pairs.
    pub fn data_contract_members(&self, node: usize, members: &[&str]) -> (r: Vec<(usize, usize)>)
        ensures
            r@ == matched_members(
                self.nodes@,
                element_children(self.nodes@, node as int),
                members@.map_values(|m: &str| m@),
            ).0,
            forall|t: int| 0 <= t < r@.len() ==> #[trigger] r@[t].1 < self.nodes@.len(),
    {
        let ghost names = members@.map_values(|m: &str| m@);
        let kids = self.element_children(node);
        let n_nodes = self.nodes.len();
        proof {
            lemma_elements_upto_bound(self.nodes@, node as int, self.nodes@.len() as int);
        }
        let n_members = members.len();
        let mut r: Vec<(usize, usize)> = Vec::new();
        let mut current: Option<usize> = None;
        let mut k: usize = 0;
        while k < kids.len()
            invariant
                0 <= k <= kids@.len(),
                kids@ == element_children(self.nodes@, node as int),
                names == members@.map_values(|m: &str| m@),
                (r@, current) == matched_members(self.nodes@, kids@.take(k as int), names),
                forall|t: int| 0 <= t < r@.len() ==> #[trigger] r@[t].1 < self.nodes@.len(),
                n_members == members@.len(),
                current matches Some(c) ==> c < members@.len(),
                forall|i: int| 0 <= i < kids@.len() ==> #[trigger] kids@[i] < self.nodes@.len(),
            decreases kids.len() - k,
        {
            let kid = kids[k];
            let name = chars_of(self.nodes[kid].name.as_str());
            let start: usize = match current {
                Some(c) => c + 1,
                None => 0,
            };
            let mut j = start;
            let mut found: Option<usize> = None;
            while j < n_members
                invariant
                    n_members == members@.len(),
                    start <= j <= members@.len(),
                    names == members@.map_values(|m: &str| m@),
                    name@ == self.nodes@[kid as int].name@,
                    member_from(names, name@, start as int) == match found {
                        Some(f) => Some(f),
                        None => member_from(names, name@, j as int),
                    },
                    found is Some ==> j == members@.len(),
                    found matches Some(f) ==> f < members@.len(),
                decreases members.len() - j,
            {
                if chars_equal(&chars_of(members[j]), &name) {
                    found = Some(j);
                    j = n_members;
                } else {
                    j = j + 1;
                }
            }
            assert(kids@.take(k + 1).drop_last() =~= kids@.take(k as int));
            match found {
                Some(f) => {
                    r.push((f, kid));
                    current = Some(f);
                },
                None => {},
            }
            k = k + 1;
        }
        assert(kids@.take(kids@.len() as int) =~= kids@);
        r
    }

    /// The first element child with a name.
    pub fn child(&self, node: usize, name: &str) -> (r: Option<usize>)
        ensures
            r == (if children_named(self.nodes@, node as int, name@).len() > 0 {
                Some(children_named(self.nodes@, node as int, name@)[0])
            } else {
                None
            }),
    {
        let kids = self.children(node, name);
        if kids.len() > 0 {
            Some(kids[0])
        } else {
            None
        }
    }

    /// The local name of a node.
    pub fn name(&self, node: usize) -> (r: &str)
        requires
            node < self.nodes@.len(),
        ensures
            r@ == self.nodes@[node as int].name@,
    {
        self.nodes[node].name.as_str()
    }

    /// All the text within a node.
    pub fn text(&self, node: usize) -> (r: Vec<char>)
        requires
            self.wf(),
        ensures
            r@ == node_text(self.nodes@, node as int),
    {
        let mut r: Vec<char> = Vec::new();
        let mut i: usize = 0;
        while i < self.nodes.len()
            invariant
                0 <= i <= self.nodes@.len(),
                self.wf(),
                r@ == text_upto(self.nodes@, node as int, i as int),
            decreases self.nodes.len() - i,
        {
            if self.nodes[i].is_text && self.is_ancestor_or_self(node, i) {
                if let Some(t) = &self.nodes[i].text {
                    append_chars(&mut r, &chars_of(t.as_str()));
                }
            }
            i = i + 1;
        }
        r
    }

    fn is_ancestor_or_self(&self, a: usize, i: usize) -> (r: bool)
        requires
            self.wf(),
            i < self.nodes@.len(),
        ensures
            r == ancestor_or_self(self.nodes@, a as int, i as int),
    {
        let mut j = i;
        while j != a
            invariant
                self.wf(),
                j < self.nodes@.len(),
                ancestor_or_self(self.nodes@, a as int, i as int) == ancestor_or_self(
                    self.nodes@,
                    a as int,
                    j as int,
                ),
            decreases j,
        {
            match self.nodes[j].parent {
                Some(p) => {
                    if j == 0 {
                        return false;
                    }
                    j = p;
                },
                None => {
                    return false;
                },
            }
        }
        true
    }

    /// The value of an attribute of a node, by namespace and local name.
    pub fn attribute(&self, node: usize, namespace: Option<&str>, name: &str) -> (r: Option<String>)
        requires
            node < self.nodes@.len(),
        ensures
            match r {
                Some(v) => attribute_value(
                    self.nodes@[node as int],
                    match namespace {
                        Some(n) => Some(n@),
                        None => None,
                    },
                    name@,
                ) == Some(v@),
                None => attribute_value(
                    self.nodes@[node as int],
                    match namespace {
                        Some(n) => Some(n@),
                        None => None,
                    },
                    name@,
                ) is None,
            },
    {
        let ghost ns = match namespace {
            Some(n) => Some(n@),
            None => None,
        };
        let target = chars_of(name);
        let attrs = &self.nodes[node].attributes;
        let mut i: usize = 0;
        while i < attrs.len()
            invariant
                0 <= i <= attrs@.len(),
                node < self.nodes@.len(),
                attrs@ == self.nodes@[node as int].attributes@,
                target@ == name@,
                ns == match namespace {
                    Some(n) => Some(n@),
                    None => None::<Seq<char>>,
                },
                attribute_upto(attrs@, ns, name@, i as int) is None,
            decreases attrs.len() - i,
        {
            let a = &attrs[i];
            let ns_matches = match (&a.namespace, namespace) {
                (None, None) => true,
                (Some(x), Some(y)) => chars_equal(&chars_of(x.as_str()), &chars_of(y)),
                _ => false,
            };
            if ns_matches && chars_equal(&chars_of(a.name.as_str()), &target) {
                proof {
                    lemma_attribute_upto_found(attrs@, ns, name@, i + 1, attrs@.len() as int);
                }
                return Some(a.value.clone());
            }
            i = i + 1;
        }
        None
    }

    /// True if an element is marked `i:nil="true"`.
    pub fn is_nil(&self, node: usize) -> (r: bool)
        requires
            node < self.nodes@.len(),
        ensures
            r == node_is_nil(self.nodes@, node as int),
    {
        proof {
            reveal_strlit("nil");
            reveal_strlit("true");
            assert("nil"@ =~= seq!['n', 'i', 'l']);
            assert("true"@ =~= seq!['t', 'r', 'u', 'e']);
        }
        match self.attribute(node, Some(XSI_NS), "nil") {
            Some(v) => chars_equal(&chars_of(v.as_str()), &chars_of("true")),
            None => false,
        }
    }
}

/// Whether a node is marked `i:nil="true"`.
pub open spec fn node_is_nil(nodes: Seq<XmlNode>, n: int) -> bool {
    attribute_value(nodes[n], Some(XSI_NS@), seq!['n', 'i', 'l']) == Some(seq!['t', 'r', 'u', 'e'])
}

/// Whether two character sequences are equal.
pub fn chars_equal(a: &[char], b: &[char]) -> (r: bool)
    ensures
        r == (a@ == b@),
{
    if a.len() != b.len() {
        return false;
    }
    let mut i: usize = 0;
    while i < a.len()
        invariant
            0 <= i <= a@.len(),
            a@.len() == b@.len(),
            a@.take(i as int) == b@.take(i as int),
        decreases a.len() - i,
    {
        if a[i] != b[i] {
            assert(a@[i as int] != b@[i as int]);
            return false;
        }
        assert(a@.take(i + 1) =~= a@.take(i as int).push(a@[i as int]));
        assert(b@.take(i + 1) =~= b@.take(i as int).push(b@[i as int]));
        i = i + 1;
    }
    assert(a@.take(a@.len() as int) =~= a@);
    assert(b@.take(b@.len() as int) =~= b@);
    true
}

} // verus!
