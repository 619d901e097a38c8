//! XML elements, built up by name, attributes and content, and the
//! documents they are written as.
use vstd::prelude::*;
use crate::text::{key_less, key_lt, lemma_key_order, push_char, push_str};

verus! {

/// The mathematical model of an XML element: its name, its attributes in
/// the order in which they are written out, and its content.
pub struct XmlNode {
    pub name: Seq<char>,
    pub attributes: Seq<(Seq<char>, Seq<char>)>,
    pub content: XmlContent,
}

/// The model of what an element holds.
pub enum XmlContent {
    Empty,
    Elements(Seq<XmlNode>),
    Text(Seq<char>),
}

/// Represents an XML element
#[derive(Debug, PartialEq, Eq)]
pub struct XMLElement {
    name: String,
    attributes: Vec<(String, String)>,
    content: XMLElementContent,
}

/// What an XML element holds: nothing, child elements or (escaped) text.
#[derive(Debug, PartialEq, Eq)]
enum XMLElementContent {
    Empty,
    Elements(Vec<XMLElement>),
    Text(String),
}

/// The characters of attribute (name, value) pairs.
pub closed spec fn attributes_model(attrs: Seq<(String, String)>) -> Seq<(Seq<char>, Seq<char>)> {
    Seq::new(attrs.len(), |i: int| (attrs[i].0@, attrs[i].1@))
}

impl XMLElement {
    /// The element as a mathematical value.
    pub closed spec fn model(self) -> XmlNode
        decreases self,
    {
        XmlNode {
            name: self.name@,
            attributes: attributes_model(self.attributes@),
            content: match self.content {
                XMLElementContent::Empty => XmlContent::Empty,
                XMLElementContent::Elements(list) => XmlContent::Elements(
                    children_model(list@),
                ),
                XMLElementContent::Text(t) => XmlContent::Text(t@),
            },
        }
    }
}

/// The models of child elements, in order.
pub closed spec fn children_model(list: Seq<XMLElement>) -> Seq<XmlNode>
    decreases list,
{
    if list.len() == 0 {
        Seq::empty()
    } else {
        children_model(list.drop_last()).push(list.last().model())
    }
}

/// The model of a new element named `name`: no attributes, no content.
pub open spec fn new_node(name: Seq<char>) -> XmlNode {
    XmlNode { name, attributes: Seq::empty(), content: XmlContent::Empty }
}

/// One of the calls that build an element up: `add_attribute(name, value)`,
/// `add_child` of an element with this model, `add_text(text)`.
pub enum BuildCall {
    Attribute(Seq<char>, Seq<char>),
    Child(XmlNode),
    Text(Seq<char>),
}

/// The element after one more call, as that call's contract gives it;
/// `None` where the call is refused (a child after text, text after any
/// content).
pub open spec fn apply_call(node: XmlNode, call: BuildCall) -> Option<XmlNode> {
    match call {
        BuildCall::Attribute(name, value) => Some(
            XmlNode { attributes: with_attribute(node.attributes, name, escape(value)), ..node },
        ),
        BuildCall::Child(child) => if node.content is Text {
            None
        } else {
            Some(XmlNode { content: XmlContent::Elements(children_of(node).push(child)), ..node })
        },
        BuildCall::Text(text) => if node.content is Empty {
            Some(XmlNode { content: XmlContent::Text(escape(text)), ..node })
        } else {
            None
        },
    }
}

/// The element that `XMLElement::new(name)` followed by `calls` builds;
/// `None` where one of the calls is refused.
pub open spec fn build(name: Seq<char>, calls: Seq<BuildCall>) -> Option<XmlNode>
    decreases calls.len(),
{
    if calls.len() == 0 {
        Some(new_node(name))
    } else {
        match build(name, calls.drop_last()) {
            Some(node) => apply_call(node, calls.last()),
            None => None,
        }
    }
}

/// The children added by `calls`, in call order.
pub open spec fn children_in(calls: Seq<BuildCall>) -> Seq<XmlNode>
    decreases calls.len(),
{
    if calls.len() == 0 {
        Seq::empty()
    } else {
        match calls.last() {
            BuildCall::Child(child) => children_in(calls.drop_last()).push(child),
            _ => children_in(calls.drop_last()),
        }
    }
}

/// How many `add_text` calls `calls` holds.
pub open spec fn text_calls(calls: Seq<BuildCall>) -> nat
    decreases calls.len(),
{
    if calls.len() == 0 {
        0
    } else {
        match calls.last() {
            BuildCall::Text(_) => text_calls(calls.drop_last()) + 1,
            _ => text_calls(calls.drop_last()),
        }
    }
}

/// The replacement text of one character in escaped XML.
pub open spec fn escape_char(c: char) -> Seq<char> {
    if c == '&' {
        "&amp;"@
    } else if c == '"' {
        "&quot;"@
    } else if c == '\'' {
        "&apos;"@
    } else if c == '<' {
        "&lt;"@
    } else if c == '>' {
        "&gt;"@
    } else {
        seq![c]
    }
}

/// `s` with each of `& " ' < >` replaced by its character entity.
pub open spec fn escape(s: Seq<char>) -> Seq<char>
    decreases s.len(),
{
    if s.len() == 0 {
        Seq::empty()
    } else {
        escape(s.drop_last()) + escape_char(s.last())
    }
}

/// The indentation of an element at depth `level`: one tab per level.
pub open spec fn tabs(level: nat) -> Seq<char> {
    Seq::new(level, |_i: int| '\t')
}

/// The attributes as they stand in a start tag: ` name="value"` for each.
pub open spec fn attribute_text(attrs: Seq<(Seq<char>, Seq<char>)>) -> Seq<char>
    decreases attrs.len(),
{
    if attrs.len() == 0 {
        Seq::empty()
    } else {
        attribute_text(attrs.drop_last()) + " "@ + attrs.last().0 + "=\""@ + attrs.last().1 + "\""@
    }
}

/// The lines that write `node` at depth `level`.
pub open spec fn render(node: XmlNode, level: nat) -> Seq<char>
    decreases node,
{
    let start = tabs(level) + "<"@ + node.name + attribute_text(node.attributes);
    match node.content {
        XmlContent::Empty => start + " />\n"@,
        XmlContent::Elements(children) => start + ">\n"@ + render_all(children, level + 1) + tabs(
            level,
        ) + "</"@ + node.name + ">\n"@,
        XmlContent::Text(text) => start + ">"@ + text + "</"@ + node.name + ">\n"@,
    }
}

/// The lines of `nodes`, one after the other, each at depth `level`.
pub open spec fn render_all(nodes: Seq<XmlNode>, level: nat) -> Seq<char>
    decreases nodes,
{
    if nodes.len() == 0 {
        Seq::empty()
    } else {
        render_all(nodes.drop_last(), level) + render(nodes.last(), level)
    }
}

/// The first line of every document.
pub open spec fn xml_header() -> Seq<char> {
    "<?xml version = \"1.0\" encoding = \"UTF-8\"?>\n"@
}

/// The whole UTF-8 XML document of which `node` is the root.
pub open spec fn document(node: XmlNode) -> Seq<char> {
    xml_header() + render(node, 0)
}

/// The attribute keys are strictly increasing in `key_lt`.
pub open spec fn attributes_sorted(attrs: Seq<(Seq<char>, Seq<char>)>) -> bool {
    forall|i: int, j: int| 0 <= i < j < attrs.len() ==> key_lt(#[trigger] attrs[i].0, #[trigger] attrs[j].0)
}

/// The attributes after setting `key` to `value`: those with a smaller key,
/// then `key`, then those with a larger key (an old value of `key` is gone).
pub open spec fn with_attribute(attrs: Seq<(Seq<char>, Seq<char>)>, key: Seq<char>, value: Seq<char>) -> Seq<(Seq<char>, Seq<char>)> {
    attrs.filter(|a: (Seq<char>, Seq<char>)| key_lt(a.0, key)) + seq![(key, value)]
        + attrs.filter(|a: (Seq<char>, Seq<char>)| key_lt(key, a.0))
}

impl XMLElement {
    /// A well-formed element keeps its attributes sorted by key, each key
    /// once; every element is well-formed (see `attributes_in_order`).
    pub open spec fn wf(self) -> bool {
        attributes_sorted(self.model().attributes)
    }

    /// The invariant of every element: its attributes are sorted by key.
    #[verifier::type_invariant]
    closed spec fn attributes_in_order(self) -> bool {
        attributes_sorted(attributes_model(self.attributes@))
    }
}

/// Escapes the five characters that XML reserves.
pub fn escape_str(input: &str) -> (res: String)
    ensures
        res@ == escape(input@),
{
    broadcast use vstd::string::group_string_axioms;
    let mut out = String::new();
    for c in it: input.chars()
        invariant
            it.seq() == input@,
            out@ == escape(input@.take(it.index())),
    {
        if c == '&' {
            push_str(&mut out, "&amp;");
        } else if c == '"' {
            push_str(&mut out, "&quot;");
        } else if c == '\'' {
            push_str(&mut out, "&apos;");
        } else if c == '<' {
            push_str(&mut out, "&lt;");
        } else if c == '>' {
            push_str(&mut out, "&gt;");
        } else {
            push_char(&mut out, c);
        }
        assert(input@.take(it.index() + 1).drop_last() =~= input@.take(it.index()));
    }
    assert(input@.take(input@.len() as int) =~= input@);
    out
}

/// The child elements of `node` (none unless it holds elements).
pub open spec fn children_of(node: XmlNode) -> Seq<XmlNode> {
    match node.content {
        XmlContent::Elements(children) => children,
        _ => Seq::empty(),
    }
}

proof fn lemma_filter_all<A>(s: Seq<A>, f: spec_fn(A) -> bool)
    requires
        forall|i: int| 0 <= i < s.len() ==> f(#[trigger] s[i]),
    ensures
        s.filter(f) == s,
    decreases s.len(),
{
    reveal(Seq::filter);
    if s.len() > 0 {
        lemma_filter_all(s.drop_last(), f);
        assert(f(s[s.len() - 1]));
        assert(s.drop_last().push(s.last()) =~= s);
    }
}

proof fn lemma_filter_none<A>(s: Seq<A>, f: spec_fn(A) -> bool)
    requires
        forall|i: int| 0 <= i < s.len() ==> !f(#[trigger] s[i]),
    ensures
        s.filter(f) == Seq::<A>::empty(),
    decreases s.len(),
{
    reveal(Seq::filter);
    if s.len() > 0 {
        lemma_filter_none(s.drop_last(), f);
        assert(!f(s[s.len() - 1]));
    }
}

proof fn lemma_filter_prefix<A>(s: Seq<A>, f: spec_fn(A) -> bool, p: int)
    requires
        0 <= p <= s.len(),
        forall|j: int| 0 <= j < p ==> f(#[trigger] s[j]),
        forall|j: int| p <= j < s.len() ==> !f(#[trigger] s[j]),
    ensures
        s.filter(f) == s.take(p),
{
    assert(s =~= s.take(p) + s.skip(p));
    Seq::filter_distributes_over_add(s.take(p), s.skip(p), f);
    lemma_filter_all(s.take(p), f);
    lemma_filter_none(s.skip(p), f);
    assert(s.take(p) + Seq::<A>::empty() =~= s.take(p));
}

proof fn lemma_filter_suffix<A>(s: Seq<A>, f: spec_fn(A) -> bool, q: int)
    requires
        0 <= q <= s.len(),
        forall|j: int| 0 <= j < q ==> !f(#[trigger] s[j]),
        forall|j: int| q <= j < s.len() ==> f(#[trigger] s[j]),
    ensures
        s.filter(f) == s.skip(q),
{
    assert(s =~= s.take(q) + s.skip(q));
    Seq::filter_distributes_over_add(s.take(q), s.skip(q), f);
    lemma_filter_none(s.take(q), f);
    lemma_filter_all(s.skip(q), f);
    assert(Seq::<A>::empty() + s.skip(q) =~= s.skip(q));
}

/// In sorted `attrs`, with the `p` keys below `key` first: the keys from
/// `p` on are not below `key`, and those after an equal key are above it.
proof fn lemma_sorted_split(attrs: Seq<(Seq<char>, Seq<char>)>, key: Seq<char>, p: int, q: int)
    requires
        attributes_sorted(attrs),
        0 <= p <= attrs.len(),
        forall|j: int| 0 <= j < p ==> key_lt(#[trigger] attrs[j].0, key),
        p < attrs.len() ==> !key_lt(attrs[p].0, key),
        q == if p < attrs.len() && attrs[p].0 == key { p + 1 } else { p },
    ensures
        forall|j: int| p <= j < attrs.len() ==> !key_lt(#[trigger] attrs[j].0, key),
        forall|j: int| q <= j < attrs.len() ==> key_lt(key, #[trigger] attrs[j].0),
        forall|j: int| 0 <= j < q ==> !key_lt(key, #[trigger] attrs[j].0),
{
    assert forall|j: int| p <= j < attrs.len() implies !key_lt(#[trigger] attrs[j].0, key) by {
        lemma_key_order(attrs[p].0, attrs[j].0, key);
        if j > p {
            assert(key_lt(attrs[p].0, attrs[j].0));
        }
    }
    assert forall|j: int| q <= j < attrs.len() implies key_lt(key, #[trigger] attrs[j].0) by {
        lemma_key_order(key, attrs[p].0, attrs[j].0);
        lemma_key_order(attrs[j].0, key, key);
        if j > p {
            assert(key_lt(attrs[p].0, attrs[j].0));
        }
    }
    assert forall|j: int| 0 <= j < q implies !key_lt(key, #[trigger] attrs[j].0) by {
        lemma_key_order(key, attrs[j].0, key);
    }
}

/// Where `key` goes in sorted `attrs`: after the `p` smaller keys.
proof fn lemma_with_attribute_at(
    attrs: Seq<(Seq<char>, Seq<char>)>,
    key: Seq<char>,
    value: Seq<char>,
    p: int,
)
    requires
        attributes_sorted(attrs),
        0 <= p <= attrs.len(),
        forall|j: int| 0 <= j < p ==> key_lt(#[trigger] attrs[j].0, key),
        p < attrs.len() ==> !key_lt(attrs[p].0, key),
    ensures
        p < attrs.len() && attrs[p].0 == key ==> with_attribute(attrs, key, value) == attrs.update(
            p,
            (key, value),
        ),
        !(p < attrs.len() && attrs[p].0 == key) ==> with_attribute(attrs, key, value)
            == attrs.insert(p, (key, value)),
        attributes_sorted(with_attribute(attrs, key, value)),
{
    let below = |a: (Seq<char>, Seq<char>)| key_lt(a.0, key);
    let above = |a: (Seq<char>, Seq<char>)| key_lt(key, a.0);
    let exact = p < attrs.len() && attrs[p].0 == key;
    let q = if exact {
        p + 1
    } else {
        p
    };
    lemma_sorted_split(attrs, key, p, q);
    lemma_filter_prefix(attrs, below, p);
    lemma_filter_suffix(attrs, above, q);
    let lo = attrs.take(p);
    let hi = attrs.skip(q);
    let r = with_attribute(attrs, key, value);
    assert(r =~= lo + seq![(key, value)] + hi);
    if exact {
        assert(r =~= attrs.update(p, (key, value)));
    } else {
        assert(r =~= attrs.insert(p, (key, value)));
    }
    lemma_with_attribute_sorted(attrs, key, value, p, q);
}

proof fn lemma_with_attribute_sorted(
    attrs: Seq<(Seq<char>, Seq<char>)>,
    key: Seq<char>,
    value: Seq<char>,
    p: int,
    q: int,
)
    requires
        attributes_sorted(attrs),
        0 <= p <= q <= attrs.len(),
        q <= p + 1,
        forall|j: int| 0 <= j < p ==> key_lt(#[trigger] attrs[j].0, key),
        forall|j: int| q <= j < attrs.len() ==> key_lt(key, #[trigger] attrs[j].0),
    ensures
        attributes_sorted(attrs.take(p) + seq![(key, value)] + attrs.skip(q)),
{
    let r = attrs.take(p) + seq![(key, value)] + attrs.skip(q);
    assert forall|i: int, j: int| 0 <= i < j < r.len() implies key_lt(
        #[trigger] r[i].0,
        #[trigger] r[j].0,
    ) by {
        if j < p {
            assert(r[i] == attrs[i] && r[j] == attrs[j]);
        } else if j == p {
            assert(r[j].0 == key && r[i] == attrs[i]);
        } else if i < p {
            assert(r[i] == attrs[i] && r[j] == attrs[j - p - 1 + q]);
            lemma_key_order(attrs[i].0, key, r[j].0);
        } else if i == p {
            assert(r[i].0 == key && r[j] == attrs[j - p - 1 + q]);
        } else {
            assert(r[i] == attrs[i - p - 1 + q] && r[j] == attrs[j - p - 1 + q]);
        }
    }
}

proof fn lemma_children_model_push(list: Seq<XMLElement>, i: int)
    requires
        0 <= i < list.len(),
    ensures
        children_model(list.take(i + 1)) == children_model(list.take(i)).push(list[i].model()),
{
    assert(list.take(i + 1).drop_last() =~= list.take(i));
}

proof fn lemma_render_all_push(nodes: Seq<XmlNode>, node: XmlNode, level: nat)
    ensures
        render_all(nodes.push(node), level) == render_all(nodes, level) + render(node, level),
{
    assert(nodes.push(node).drop_last() =~= nodes);
}

proof fn lemma_attribute_text_push(attrs: Seq<(Seq<char>, Seq<char>)>, i: int)
    requires
        0 <= i < attrs.len(),
    ensures
        attribute_text(attrs.take(i + 1)) == attribute_text(attrs.take(i)) + " "@ + attrs[i].0
            + "=\""@ + attrs[i].1 + "\""@,
{
    assert(attrs.take(i + 1).drop_last() =~= attrs.take(i));
}

impl XMLElement {
    /// Creates a new empty XML element
    pub fn new(name: &str) -> (res: XMLElement)
        ensures
            res.model() == new_node(name@),
            res.wf(),
    {
        let res = XMLElement {
            name: name.to_owned(),
            attributes: Vec::new(),
            content: XMLElementContent::Empty,
        };
        assert(attributes_model(res.attributes@) =~= Seq::empty());
        res
    }

    /// The number of attributes before which `name` belongs.
    fn attribute_position(&self, name: &str) -> (p: usize)
        requires
            self.wf(),
        ensures
            p <= self.model().attributes.len(),
            forall|j: int| 0 <= j < p ==> key_lt(#[trigger] self.model().attributes[j].0, name@),
            p < self.model().attributes.len() ==> !key_lt(self.model().attributes[p as int].0, name@),
    {
        let n = self.attributes.len();
        let mut i: usize = 0;
        while i < n
            invariant
                n == self.attributes@.len(),
                i <= n,
                forall|j: int| 0 <= j < i ==> key_lt(#[trigger] self.model().attributes[j].0, name@),
            decreases n - i,
        {
            if !key_less(self.attributes[i].0.as_str(), name) {
                return i;
            }
            i = i + 1;
        }
        i
    }

    /// Adds an attribute to the XML element (its value escaped); an
    /// attribute of the same name is replaced.
    pub fn add_attribute(&mut self, name: &str, value: &str)
        ensures
            final(self).wf(),
            final(self).model() == (XmlNode {
                attributes: with_attribute(old(self).model().attributes, name@, escape(value@)),
                ..old(self).model()
            }),
            apply_call(old(self).model(), BuildCall::Attribute(name@, value@)) == Some(final(self).model()),
            attribute_value(final(self).model().attributes, name@) == Some(escape(value@)),
            forall|other: Seq<char>|
                other != name@ ==> #[trigger] attribute_value(final(self).model().attributes, other)
                    == attribute_value(old(self).model().attributes, other),
    {
        proof {
            use_type_invariant(&*self);
        }
        let ghost attrs = self.model().attributes;
        let p = self.attribute_position(name);
        let key = name.to_owned();
        let val = escape_str(value);
        proof {
            lemma_with_attribute_at(attrs, name@, escape(value@), p as int);
        }
        proof {
            assert forall|other: Seq<char>| other != name@ implies #[trigger] attribute_value(
                with_attribute(attrs, name@, escape(value@)),
                other,
            ) == attribute_value(attrs, other) by {
                law_attribute_read_after_write(attrs, name@, escape(value@), other);
            }
            law_attribute_read_after_write(attrs, name@, escape(value@), name@);
        }
        let mut attributes: Vec<(String, String)> = Vec::new();
        std::mem::swap(&mut attributes, &mut self.attributes);
        if p < attributes.len() && attributes[p].0 == key {
            attributes.set(p, (key, val));
            assert(attributes_model(attributes@) =~= attrs.update(p as int, (name@, escape(value@))));
        } else {
            attributes.insert(p, (key, val));
            assert(attributes_model(attributes@) =~= attrs.insert(p as int, (name@, escape(value@))));
        }
        self.attributes = attributes;
    }

    /// Adds a child element to the XML element
    pub fn add_child(&mut self, child: XMLElement)
        requires
            !(old(self).model().content is Text),
        ensures
            final(self).model() == (XmlNode {
                content: XmlContent::Elements(children_of(old(self).model()).push(child.model())),
                ..old(self).model()
            }),
            final(self).wf(),
            apply_call(old(self).model(), BuildCall::Child(child.model())) == Some(final(self).model()),
    {
        proof {
            use_type_invariant(&*self);
        }
        let ghost old_node = self.model();
        let ghost cm = child.model();
        let mut content = XMLElementContent::Empty;
        std::mem::swap(&mut content, &mut self.content);
        let new_content = match content {
            XMLElementContent::Elements(mut list) => {
                let ghost old_list = list@;
                assert(children_of(old_node) == children_model(old_list));
                list.push(child);
                assert(list@.drop_last() =~= old_list);
                assert(children_model(list@) == children_model(old_list).push(cm));
                XMLElementContent::Elements(list)
            },
            _ => {
                let mut list: Vec<XMLElement> = Vec::new();
                list.push(child);
                assert(list@.drop_last() =~= Seq::<XMLElement>::empty());
                assert(children_model(Seq::<XMLElement>::empty()) =~= Seq::<XmlNode>::empty());
                assert(children_model(list@) == Seq::<XmlNode>::empty().push(cm));
                XMLElementContent::Elements(list)
            },
        };
        self.content = new_content;
    }

    /// Adds text to the XML element (escaped)
    pub fn add_text(&mut self, text: &str)
        requires
            old(self).model().content is Empty,
        ensures
            final(self).model() == (XmlNode {
                content: XmlContent::Text(escape(text@)),
                ..old(self).model()
            }),
            final(self).wf(),
            apply_call(old(self).model(), BuildCall::Text(text@)) == Some(final(self).model()),
    {
        proof {
            use_type_invariant(&*self);
        }
        self.content = XMLElementContent::Text(escape_str(text));
    }

    /// Outputs a UTF-8 XML document: appends it to `writer`.
    pub fn write(&self, writer: &mut String)
        ensures
            final(writer)@ == old(writer)@ + document(self.model()),
    {
        push_str(writer, "<?xml version = \"1.0\" encoding = \"UTF-8\"?>\n");
        let prefix = String::new();
        assert(prefix@ =~= tabs(0));
        self.write_level(writer, &prefix, Ghost(0));
    }

    /// The document as a `String`.
    pub fn to_string(&self) -> (res: String)
        ensures
            res@ == document(self.model()),
    {
        let mut s = String::new();
        self.write(&mut s);
        assert(s@ =~= document(self.model()));
        s
    }

    fn write_level(&self, writer: &mut String, prefix: &String, Ghost(level): Ghost<nat>)
        requires
            prefix@ == tabs(level),
        ensures
            final(writer)@ == old(writer)@ + render(self.model(), level),
        decreases self,
    {
        let ghost start = old(writer)@;
        let ghost node = self.model();
        push_str(writer, prefix.as_str());
        push_str(writer, "<");
        push_str(writer, self.name.as_str());
        let attrs = self.attribute_string();
        push_str(writer, attrs.as_str());
        let ghost opening = tabs(level) + "<"@ + node.name + attribute_text(node.attributes);
        assert(writer@ =~= start + opening);
        match &self.content {
            XMLElementContent::Empty => {
                push_str(writer, " />\n");
                assert(writer@ =~= start + render(node, level));
            },
            XMLElementContent::Elements(list) => {
                push_str(writer, ">\n");
                let mut inner = prefix.clone();
                push_char(&mut inner, '\t');
                assert(inner@ =~= tabs(level + 1));
                let ghost head = writer@;
                let mut i: usize = 0;
                assert(list@.take(0) =~= Seq::<XMLElement>::empty());
                while i < list.len()
                    invariant
                        self.content == XMLElementContent::Elements(*list),
                        i <= list@.len(),
                        inner@ == tabs(level + 1),
                        writer@ == head + render_all(children_model(list@.take(i as int)), level + 1),
                    decreases list@.len() - i,
                {
                    proof {
                        lemma_children_model_push(list@, i as int);
                        lemma_render_all_push(children_model(list@.take(i as int)), list@[i as int].model(), level + 1);
                    }
                    proof {
                        assert(decreases_to!(self => self.content));
                        assert(decreases_to!(self.content => self.content->Elements_0));
                        assert(decreases_to!(*list => list@));
                        assert(decreases_to!(list@ => list@[i as int]));
                        assert(decreases_to!(self => list@[i as int]));
                    }
                    list[i].write_level(writer, &inner, Ghost(level + 1));
                    i = i + 1;
                }
                assert(list@.take(list@.len() as int) =~= list@);
                push_str(writer, prefix.as_str());
                push_str(writer, "</");
                push_str(writer, self.name.as_str());
                push_str(writer, ">\n");
                assert(writer@ =~= start + render(node, level));
            },
            XMLElementContent::Text(text) => {
                push_str(writer, ">");
                push_str(writer, text.as_str());
                push_str(writer, "</");
                push_str(writer, self.name.as_str());
                push_str(writer, ">\n");
                assert(writer@ =~= start + render(node, level));
            },
        }
    }

    /// The attributes as they stand in the start tag.
    fn attribute_string(&self) -> (res: String)
        ensures
            res@ == attribute_text(self.model().attributes),
    {
        let ghost attrs = self.model().attributes;
        let mut result = String::new();
        let mut i: usize = 0;
        assert(attrs.take(0) =~= Seq::<(Seq<char>, Seq<char>)>::empty());
        while i < self.attributes.len()
            invariant
                i <= self.attributes@.len(),
                attrs == self.model().attributes,
                result@ == attribute_text(attrs.take(i as int)),
            decreases self.attributes@.len() - i,
        {
            proof {
                lemma_attribute_text_push(attrs, i as int);
            }
            push_str(&mut result, " ");
            push_str(&mut result, self.attributes[i].0.as_str());
            push_str(&mut result, "=\"");
            push_str(&mut result, self.attributes[i].1.as_str());
            push_str(&mut result, "\"");
            i = i + 1;
        }
        assert(attrs.take(attrs.len() as int) =~= attrs);
        result
    }
}

/// The value of the attribute `key`, if there is one.
pub open spec fn attribute_value(attrs: Seq<(Seq<char>, Seq<char>)>, key: Seq<char>) -> Option<Seq<char>> {
    if exists|i: int| 0 <= i < attrs.len() && attrs[i].0 == key {
        Some(attrs[choose|i: int| 0 <= i < attrs.len() && attrs[i].0 == key].1)
    } else {
        None
    }
}

/// Where `key` belongs in sorted `attrs`: after the keys below it.
proof fn lemma_position(attrs: Seq<(Seq<char>, Seq<char>)>, key: Seq<char>) -> (p: int)
    requires
        attributes_sorted(attrs),
    ensures
        0 <= p <= attrs.len(),
        forall|j: int| 0 <= j < p ==> key_lt(#[trigger] attrs[j].0, key),
        p < attrs.len() ==> !key_lt(attrs[p].0, key),
    decreases attrs.len(),
{
    if attrs.len() == 0 {
        0
    } else {
        let rest = attrs.drop_last();
        assert(attributes_sorted(rest)) by {
            assert forall|i: int, j: int| 0 <= i < j < rest.len() implies key_lt(#[trigger] rest[i].0, #[trigger] rest[j].0) by {
                assert(rest[i] == attrs[i] && rest[j] == attrs[j]);
            }
        }
        let q = lemma_position(rest, key);
        assert forall|j: int| 0 <= j < q implies key_lt(#[trigger] attrs[j].0, key) by {
            assert(rest[j] == attrs[j]);
        }
        if q < rest.len() {
            assert(rest[q] == attrs[q]);
            q
        } else if key_lt(attrs.last().0, key) {
            attrs.len() as int
        } else {
            q
        }
    }
}

/// In sorted attributes each key stands once, so a key's value is the one
/// at its index.
proof fn lemma_value_at(attrs: Seq<(Seq<char>, Seq<char>)>, key: Seq<char>, i: int)
    requires
        attributes_sorted(attrs),
        0 <= i < attrs.len(),
        attrs[i].0 == key,
    ensures
        attribute_value(attrs, key) == Some(attrs[i].1),
{
    let c = choose|k: int| 0 <= k < attrs.len() && attrs[k].0 == key;
    if c != i {
        lemma_key_order(key, key, key);
        if c < i {
            assert(key_lt(attrs[c].0, attrs[i].0));
        } else {
            assert(key_lt(attrs[i].0, attrs[c].0));
        }
    }
}

/// Adding an attribute keeps the attributes sorted by key, each key once.
pub proof fn law_add_attribute_sorted(attrs: Seq<(Seq<char>, Seq<char>)>, key: Seq<char>, value: Seq<char>)
    requires
        attributes_sorted(attrs),
    ensures
        attributes_sorted(with_attribute(attrs, key, value)),
{
    let p = lemma_position(attrs, key);
    lemma_with_attribute_at(attrs, key, value, p);
}

/// Reading an attribute after setting it gives the value set; the other
/// attributes keep their values.
pub proof fn law_attribute_read_after_write(
    attrs: Seq<(Seq<char>, Seq<char>)>,
    key: Seq<char>,
    value: Seq<char>,
    other: Seq<char>,
)
    requires
        attributes_sorted(attrs),
    ensures
        attribute_value(with_attribute(attrs, key, value), key) == Some(value),
        other != key ==> attribute_value(with_attribute(attrs, key, value), other) == attribute_value(
            attrs,
            other,
        ),
{
    let p = lemma_position(attrs, key);
    lemma_with_attribute_at(attrs, key, value, p);
    let r = with_attribute(attrs, key, value);
    let exact = p < attrs.len() && attrs[p].0 == key;
    assert(r[p] == (key, value));
    lemma_value_at(r, key, p);
    if other != key {
        if exists|i: int| 0 <= i < attrs.len() && attrs[i].0 == other {
            let i = choose|i: int| 0 <= i < attrs.len() && attrs[i].0 == other;
            lemma_value_at(attrs, other, i);
            if exact {
                assert(i != p);
                assert(r[i] == attrs[i]);
                lemma_value_at(r, other, i);
            } else if i < p {
                assert(r[i] == attrs[i]);
                lemma_value_at(r, other, i);
            } else {
                assert(r[i + 1] == attrs[i]);
                lemma_value_at(r, other, i + 1);
            }
        } else {
            assert forall|j: int| 0 <= j < r.len() implies r[j].0 != other by {
                if exact {
                    if j != p {
                        assert(r[j] == attrs[j]);
                    }
                } else if j < p {
                    assert(r[j] == attrs[j]);
                } else if j > p {
                    assert(r[j] == attrs[j - 1]);
                }
            }
        }
    }
}

/// Setting an attribute twice leaves only the second value.
pub proof fn law_attribute_overwrite(
    attrs: Seq<(Seq<char>, Seq<char>)>,
    key: Seq<char>,
    first: Seq<char>,
    second: Seq<char>,
)
    requires
        attributes_sorted(attrs),
    ensures
        with_attribute(with_attribute(attrs, key, first), key, second) == with_attribute(attrs, key, second),
{
    let p = lemma_position(attrs, key);
    lemma_with_attribute_at(attrs, key, first, p);
    lemma_with_attribute_at(attrs, key, second, p);
    let w = with_attribute(attrs, key, first);
    lemma_key_order(key, key, key);
    assert forall|j: int| 0 <= j < p implies key_lt(#[trigger] w[j].0, key) by {
        assert(w[j] == attrs[j]);
    }
    assert(w[p].0 == key);
    lemma_with_attribute_at(w, key, second, p);
    if p < attrs.len() && attrs[p].0 == key {
        assert(w.update(p, (key, second)) =~= attrs.update(p, (key, second)));
    } else {
        assert(w.update(p, (key, second)) =~= attrs.insert(p, (key, second)));
    }
}

proof fn lemma_value_none(attrs: Seq<(Seq<char>, Seq<char>)>, key: Seq<char>)
    requires
        forall|i: int| 0 <= i < attrs.len() ==> #[trigger] attrs[i].0 != key,
    ensures
        attribute_value(attrs, key) is None,
{
}

proof fn lemma_value_tail(attrs: Seq<(Seq<char>, Seq<char>)>, key: Seq<char>)
    requires
        attributes_sorted(attrs),
        attrs.len() > 0,
    ensures
        attributes_sorted(attrs.drop_first()),
        attribute_value(attrs.drop_first(), attrs[0].0) is None,
        key != attrs[0].0 ==> attribute_value(attrs.drop_first(), key) == attribute_value(attrs, key),
{
    let rest = attrs.drop_first();
    assert forall|i: int, j: int| 0 <= i < j < rest.len() implies key_lt(#[trigger] rest[i].0, #[trigger] rest[j].0) by {
        assert(rest[i] == attrs[i + 1] && rest[j] == attrs[j + 1]);
    }
    lemma_key_order(attrs[0].0, attrs[0].0, attrs[0].0);
    assert forall|i: int| 0 <= i < rest.len() implies #[trigger] rest[i].0 != attrs[0].0 by {
        assert(rest[i] == attrs[i + 1]);
        assert(key_lt(attrs[0].0, attrs[i + 1].0));
    }
    lemma_value_none(rest, attrs[0].0);
    if key != attrs[0].0 {
        if exists|i: int| 0 <= i < attrs.len() && attrs[i].0 == key {
            let i = choose|i: int| 0 <= i < attrs.len() && attrs[i].0 == key;
            lemma_value_at(attrs, key, i);
            assert(rest[i - 1] == attrs[i]);
            lemma_value_at(rest, key, i - 1);
        } else {
            assert forall|i: int| 0 <= i < rest.len() implies #[trigger] rest[i].0 != key by {
                assert(rest[i] == attrs[i + 1]);
            }
            lemma_value_none(rest, key);
        }
    }
}

/// Two sorted attribute lists that give every key the same value are equal.
proof fn lemma_attributes_ext(s: Seq<(Seq<char>, Seq<char>)>, t: Seq<(Seq<char>, Seq<char>)>)
    requires
        attributes_sorted(s),
        attributes_sorted(t),
        forall|k: Seq<char>| attribute_value(s, k) == attribute_value(t, k),
    ensures
        s == t,
    decreases s.len() + t.len(),
{
    if s.len() == 0 || t.len() == 0 {
        if s.len() > 0 {
            lemma_value_at(s, s[0].0, 0);
            assert(attribute_value(t, s[0].0) is None);
        } else if t.len() > 0 {
            lemma_value_at(t, t[0].0, 0);
            assert(attribute_value(s, t[0].0) is None);
        }
        assert(s =~= t);
    } else {
        let a = s[0].0;
        let b = t[0].0;
        lemma_value_at(s, a, 0);
        lemma_value_at(t, b, 0);
        assert(attribute_value(t, a) is Some);
        assert(attribute_value(s, b) is Some);
        let j = choose|j: int| 0 <= j < t.len() && t[j].0 == a;
        let i = choose|i: int| 0 <= i < s.len() && s[i].0 == b;
        lemma_key_order(a, b, a);
        if a != b {
            assert(j > 0 && i > 0);
            assert(key_lt(t[0].0, t[j].0));
            assert(key_lt(s[0].0, s[i].0));
        }
        assert(s[0] == t[0]);
        lemma_value_tail(s, a);
        lemma_value_tail(t, a);
        assert forall|k: Seq<char>| attribute_value(s.drop_first(), k) == attribute_value(t.drop_first(), k) by {
            lemma_value_tail(s, k);
            lemma_value_tail(t, k);
        }
        lemma_attributes_ext(s.drop_first(), t.drop_first());
        assert(s =~= seq![s[0]] + s.drop_first());
        assert(t =~= seq![t[0]] + t.drop_first());
    }
}

/// Attributes come out in key order whatever order they were added in:
/// adding two different keys in either order gives the same attributes.
pub proof fn law_attribute_order_irrelevant(
    attrs: Seq<(Seq<char>, Seq<char>)>,
    k1: Seq<char>,
    v1: Seq<char>,
    k2: Seq<char>,
    v2: Seq<char>,
)
    requires
        attributes_sorted(attrs),
        k1 != k2,
    ensures
        with_attribute(with_attribute(attrs, k1, v1), k2, v2) == with_attribute(
            with_attribute(attrs, k2, v2),
            k1,
            v1,
        ),
{
    let a1 = with_attribute(attrs, k1, v1);
    let a2 = with_attribute(attrs, k2, v2);
    law_add_attribute_sorted(attrs, k1, v1);
    law_add_attribute_sorted(attrs, k2, v2);
    let s = with_attribute(a1, k2, v2);
    let t = with_attribute(a2, k1, v1);
    law_add_attribute_sorted(a1, k2, v2);
    law_add_attribute_sorted(a2, k1, v1);
    assert forall|k: Seq<char>| attribute_value(s, k) == attribute_value(t, k) by {
        law_attribute_read_after_write(attrs, k1, v1, k);
        law_attribute_read_after_write(attrs, k2, v2, k);
        law_attribute_read_after_write(a1, k2, v2, k);
        law_attribute_read_after_write(a2, k1, v1, k);
        law_attribute_read_after_write(a1, k2, v2, k1);
        law_attribute_read_after_write(a2, k1, v1, k2);
        law_attribute_read_after_write(attrs, k1, v1, k2);
        law_attribute_read_after_write(attrs, k2, v2, k1);
    }
    lemma_attributes_ext(s, t);
}

proof fn lemma_build(name: Seq<char>, calls: Seq<BuildCall>)
    requires
        build(name, calls) is Some,
    ensures
        build(name, calls)->0.name == name,
        children_of(build(name, calls)->0) == children_in(calls),
        (build(name, calls)->0.content is Empty) <==> (children_in(calls).len() == 0 && text_calls(calls) == 0),
        (build(name, calls)->0.content is Elements) <==> children_in(calls).len() > 0,
        build(name, calls)->0.content is Elements ==> text_calls(calls) == 0,
        (build(name, calls)->0.content is Text) <==> text_calls(calls) > 0,
        build(name, calls)->0.content is Text ==> text_calls(calls) == 1 && children_in(calls).len() == 0,
    decreases calls.len(),
{
    if calls.len() > 0 {
        lemma_build(name, calls.drop_last());
        let prev = build(name, calls.drop_last())->0;
        match prev.content {
            XmlContent::Elements(l) => {},
            _ => {},
        }
    }
}

/// What the content of an element is, given the calls that built it:
/// empty exactly when no child and no text was added; elements exactly
/// when a child was added, and then the children are those added, in call
/// order; text exactly when text was added, and then by one `add_text` and
/// no `add_child`. The name is the one given to `new`.
pub proof fn law_content_from_calls(name: Seq<char>, calls: Seq<BuildCall>)
    requires
        build(name, calls) is Some,
    ensures
        build(name, calls)->0.name == name,
        (build(name, calls)->0.content is Empty) <==> (children_in(calls).len() == 0 && text_calls(calls) == 0),
        build(name, calls)->0.content matches XmlContent::Elements(l) ==> l.len() > 0 && l == children_in(calls),
        (build(name, calls)->0.content is Elements) <==> children_in(calls).len() > 0,
        build(name, calls)->0.content is Text ==> text_calls(calls) == 1 && children_in(calls).len() == 0,
{
    lemma_build(name, calls);
}

/// `add_text` is accepted exactly when no `add_child` and no `add_text`
/// came before it on the element (attributes do not matter).
pub proof fn law_add_text_accepted(name: Seq<char>, calls: Seq<BuildCall>, text: Seq<char>)
    requires
        build(name, calls) is Some,
    ensures
        build(name, calls.push(BuildCall::Text(text))) is Some <==> (children_in(calls).len() == 0
            && text_calls(calls) == 0),
{
    lemma_build(name, calls);
    assert(calls.push(BuildCall::Text(text)).drop_last() =~= calls);
}

/// `add_child` is accepted exactly when no `add_text` came before it.
pub proof fn law_add_child_accepted(name: Seq<char>, calls: Seq<BuildCall>, child: XmlNode)
    requires
        build(name, calls) is Some,
    ensures
        build(name, calls.push(BuildCall::Child(child))) is Some <==> text_calls(calls) == 0,
{
    lemma_build(name, calls);
    assert(calls.push(BuildCall::Child(child)).drop_last() =~= calls);
}

proof fn lemma_render_all_contains(nodes: Seq<XmlNode>, level: nat, k: int) -> (off: int)
    requires
        0 <= k < nodes.len(),
    ensures
        0 <= off,
        off + render(nodes[k], level).len() <= render_all(nodes, level).len(),
        render_all(nodes, level).subrange(off, off + render(nodes[k], level).len()) == render(nodes[k], level),
    decreases nodes.len(),
{
    let prev = nodes.drop_last();
    let whole = render_all(nodes, level);
    if k == nodes.len() - 1 {
        let off = render_all(prev, level).len() as int;
        assert(whole.subrange(off, off + render(nodes[k], level).len()) =~= render(nodes[k], level));
        off
    } else {
        let off = lemma_render_all_contains(prev, level, k);
        assert(prev[k] == nodes[k]);
        let part = render_all(prev, level);
        assert(whole.subrange(off, off + render(nodes[k], level).len()) =~= part.subrange(
            off,
            off + render(nodes[k], level).len(),
        ));
        off
    }
}

/// An element's lines hold the lines of each of its children, one level
/// deeper, whole: at every depth, each child is written out in full inside
/// its parent.
pub proof fn law_render_holds_children(node: XmlNode, level: nat, k: int)
    requires
        node.content is Elements,
        0 <= k < children_of(node).len(),
    ensures
        exists|off: int|
            0 <= off && off + render(children_of(node)[k], level + 1).len() <= render(node, level).len()
                && #[trigger] render(node, level).subrange(off, off + render(children_of(node)[k], level + 1).len())
                == render(children_of(node)[k], level + 1),
{
    let cs = children_of(node);
    let child = render(cs[k], level + 1);
    let off = lemma_render_all_contains(cs, level + 1, k);
    let start = tabs(level) + "<"@ + node.name + attribute_text(node.attributes) + ">\n"@;
    let all = render_all(cs, level + 1);
    let whole = render(node, level);
    assert(whole == start + all + (tabs(level) + "</"@ + node.name + ">\n"@)) by {
        assert(whole =~= start + all + (tabs(level) + "</"@ + node.name + ">\n"@));
    }
    let o = start.len() + off;
    assert(whole.subrange(o, o + child.len()) =~= all.subrange(off, off + child.len()));
}

/// Every child of the root is written out in full in the document, at
/// depth one.
pub proof fn law_document_holds_children(node: XmlNode, k: int)
    requires
        node.content is Elements,
        0 <= k < children_of(node).len(),
    ensures
        exists|off: int|
            0 <= off && off + render(children_of(node)[k], 1).len() <= document(node).len()
                && #[trigger] document(node).subrange(off, off + render(children_of(node)[k], 1).len())
                == render(children_of(node)[k], 1),
{
    law_render_holds_children(node, 0, k);
    let child = render(children_of(node)[k], 1);
    let off = choose|off: int|
        0 <= off && off + child.len() <= render(node, 0).len() && #[trigger] render(node, 0).subrange(
            off,
            off + child.len(),
        ) == child;
    let o = xml_header().len() + off;
    assert(document(node).subrange(o, o + child.len()) =~= render(node, 0).subrange(off, off + child.len()));
}

/// Escaping works character by character: the escape of a concatenation
/// is the concatenation of the escapes.
pub proof fn law_escape_concat(a: Seq<char>, b: Seq<char>)
    ensures
        escape(a + b) == escape(a) + escape(b),
    decreases b.len(),
{
    if b.len() == 0 {
        assert(a + b =~= a);
        assert(escape(a) + escape(b) =~= escape(a));
    } else {
        law_escape_concat(a, b.drop_last());
        assert((a + b).drop_last() =~= a + b.drop_last());
        assert((a + b).last() == b.last());
        assert(escape(a) + escape(b.drop_last()) + escape_char(b.last()) =~= escape(a) + (escape(
            b.drop_last(),
        ) + escape_char(b.last())));
    }
}

/// Escaped text holds none of `< > " '`.
pub proof fn law_escape_no_markup(s: Seq<char>)
    ensures
        forall|i: int|
            0 <= i < escape(s).len() ==> #[trigger] escape(s)[i] != '<' && escape(s)[i] != '>'
                && escape(s)[i] != '"' && escape(s)[i] != '\'',
    decreases s.len(),
{
    reveal_strlit("&amp;");
    reveal_strlit("&quot;");
    reveal_strlit("&apos;");
    reveal_strlit("&lt;");
    reveal_strlit("&gt;");
    if s.len() > 0 {
        law_escape_no_markup(s.drop_last());
        let e = escape(s);
        let prev = escape(s.drop_last());
        let tail = escape_char(s.last());
        assert forall|i: int| 0 <= i < e.len() implies #[trigger] e[i] != '<' && e[i] != '>' && e[i] != '"'
            && e[i] != '\'' by {
            if i < prev.len() {
                assert(e[i] == prev[i]);
            } else {
                assert(e[i] == tail[i - prev.len()]);
            }
        }
    }
}

/// Text without any of `& " ' < >` is left as it is.
pub proof fn law_escape_plain(s: Seq<char>)
    requires
        forall|i: int|
            0 <= i < s.len() ==> #[trigger] s[i] != '&' && s[i] != '"' && s[i] != '\'' && s[i] != '<'
                && s[i] != '>',
    ensures
        escape(s) == s,
    decreases s.len(),
{
    if s.len() > 0 {
        law_escape_plain(s.drop_last());
        assert(s[s.len() - 1] == s.last());
        assert(s.drop_last().push(s.last()) =~= s);
    }
}

impl Clone for XMLElement {
    /// A copy of the element and all it holds.
    fn clone(&self) -> (res: Self)
        ensures
            res.model() == self.model(),
        decreases self,
    {
        let mut attributes: Vec<(String, String)> = Vec::new();
        let mut i: usize = 0;
        while i < self.attributes.len()
            invariant
                i <= self.attributes@.len(),
                attributes@.len() == i,
                attributes_model(attributes@) == attributes_model(self.attributes@).take(i as int),
            decreases self.attributes@.len() - i,
        {
            let ghost before = attributes@;
            let key = self.attributes[i].0.clone();
            let value = self.attributes[i].1.clone();
            assert(key@ == self.attributes@[i as int].0@);
            assert(value@ == self.attributes@[i as int].1@);
            attributes.push((key, value));
            assert(attributes@.drop_last() == before);
            assert forall|j: int| 0 <= j < i + 1 implies #[trigger] attributes_model(attributes@)[j] == attributes_model(self.attributes@)[j] by {
                if j < i {
                    assert(attributes@[j] == before[j]);
                    assert(attributes_model(before)[j] == attributes_model(self.attributes@).take(i as int)[j]);
                }
            }
            assert(attributes_model(attributes@) =~= attributes_model(self.attributes@).take(i + 1));
            i = i + 1;
        }
        assert(attributes_model(self.attributes@).take(i as int) =~= attributes_model(self.attributes@));
        let content = match &self.content {
            XMLElementContent::Empty => XMLElementContent::Empty,
            XMLElementContent::Text(t) => XMLElementContent::Text(t.clone()),
            XMLElementContent::Elements(list) => {
                let mut children: Vec<XMLElement> = Vec::new();
                let mut k: usize = 0;
                assert(list@.take(0) =~= Seq::<XMLElement>::empty());
                assert(children_model(Seq::<XMLElement>::empty()) =~= Seq::<XmlNode>::empty());
                while k < list.len()
                    invariant
                        self.content == XMLElementContent::Elements(*list),
                        k <= list@.len(),
                        children_model(children@) == children_model(list@.take(k as int)),
                    decreases list@.len() - k,
                {
                    proof {
                        assert(decreases_to!(self => self.content));
                        assert(decreases_to!(self.content => self.content->Elements_0));
                        assert(decreases_to!(*list => list@));
                        assert(decreases_to!(list@ => list@[k as int]));
                        lemma_children_model_push(list@, k as int);
                    }
                    let c = list[k].clone();
                    let ghost before = children@;
                    children.push(c);
                    assert(children@.drop_last() =~= before);
                    k = k + 1;
                }
                assert(list@.take(k as int) =~= list@);
                XMLElementContent::Elements(children)
            },
        };
        proof {
            use_type_invariant(self);
        }
        XMLElement { name: self.name.clone(), attributes, content }
    }
}

} // verus!
