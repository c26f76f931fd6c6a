//! Reading a book's package document (`content.opf`).

use crate::text;
use vstd::prelude::*;

verus! {

/// An attribute of an XML element, under its local name.
#[derive(Debug)]
pub struct XmlAttribute {
    pub name: String,
    pub value: String,
}

/// A node of an XML document.
#[derive(Debug)]
pub struct XmlNode {
    /// The position of the node's parent in document order.
    pub parent: Option<usize>,
    /// Whether the node is an element.
    pub element: bool,
    /// The local name of an element; empty for any other node.
    pub tag: String,
    /// The text that an element starts with, or that a text node or comment holds.
    pub text: Option<String>,
    pub attributes: Vec<XmlAttribute>,
}

/// What an [`XmlAttribute`] holds.
#[verifier::ext_equal]
pub struct AttributeView {
    pub name: Seq<char>,
    pub value: Seq<char>,
}

/// What an [`XmlNode`] holds.
#[verifier::ext_equal]
pub struct NodeView {
    pub parent: Option<usize>,
    pub element: bool,
    pub tag: Seq<char>,
    pub text: Option<Seq<char>>,
    pub attributes: Seq<AttributeView>,
}

impl View for XmlAttribute {
    type V = AttributeView;

    open spec fn view(&self) -> AttributeView {
        AttributeView { name: self.name@, value: self.value@ }
    }
}

impl View for XmlNode {
    type V = NodeView;

    open spec fn view(&self) -> NodeView {
        NodeView {
            parent: self.parent,
            element: self.element,
            tag: self.tag@,
            text: match self.text {
                Some(t) => Some(t@),
                None => None,
            },
            attributes: Seq::new(self.attributes@.len(), |i: int| self.attributes@[i]@),
        }
    }
}

/// What a list of nodes holds.
pub open spec fn node_views(v: Seq<XmlNode>) -> Seq<NodeView> {
    Seq::new(v.len(), |i: int| v[i]@)
}

/// A metadata entry of a package document.
#[derive(Debug)]
pub struct MetaEntry {
    pub id: String,
    pub property: String,
    pub refines: String,
    pub text: String,
}

/// The metadata of a package document.
#[derive(Debug)]
pub struct OpfMeta {
    pub description: String,
    pub language: String,
    pub date: String,
    pub subjects: Vec<String>,
    pub sources: Vec<String>,
    pub metas: Vec<MetaEntry>,
}

/// What a [`MetaEntry`] holds.
#[verifier::ext_equal]
pub struct EntryView {
    pub id: Seq<char>,
    pub property: Seq<char>,
    pub refines: Seq<char>,
    pub text: Seq<char>,
}

/// What an [`OpfMeta`] holds.
#[verifier::ext_equal]
pub struct OpfView {
    pub description: Seq<char>,
    pub language: Seq<char>,
    pub date: Seq<char>,
    pub subjects: Seq<Seq<char>>,
    pub sources: Seq<Seq<char>>,
    pub metas: Seq<EntryView>,
}

impl View for MetaEntry {
    type V = EntryView;

    open spec fn view(&self) -> EntryView {
        EntryView {
            id: self.id@,
            property: self.property@,
            refines: self.refines@,
            text: self.text@,
        }
    }
}

/// What a list of metadata entries holds.
pub open spec fn entry_views(v: Seq<MetaEntry>) -> Seq<EntryView> {
    Seq::new(v.len(), |i: int| v[i]@)
}

impl View for OpfMeta {
    type V = OpfView;

    open spec fn view(&self) -> OpfView {
        OpfView {
            description: self.description@,
            language: self.language@,
            date: self.date@,
            subjects: text::views(self.subjects@),
            sources: text::views(self.sources@),
            metas: entry_views(self.metas@),
        }
    }
}

/// The nodes of an XML text in document order, or the reason why it is none: what
/// [`roxmltree::Document::parse`] makes of it.
pub uninterp spec fn xml_document(xml: Seq<char>) -> Result<Seq<NodeView>, Seq<char>>;

/// Calls [`roxmltree::Document::parse`] and hands out the document's nodes, each as
/// its accessors describe it. A node's position is its identifier in the document,
/// so `parent` is a position in the list. The result depends on the text alone.
#[verifier::external_body]
fn read_xml(xml: &str) -> (r: Result<Vec<XmlNode>, String>)
    ensures
        match r {
            Ok(nodes) => xml_document(xml@) == Ok::<Seq<NodeView>, Seq<char>>(node_views(nodes@)),
            Err(e) => xml_document(xml@) == Err::<Seq<NodeView>, Seq<char>>(e@),
        },
{
    let doc = roxmltree::Document::parse(xml).map_err(|e| e.to_string())?;
    Ok(doc.descendants().map(|n| XmlNode {
        parent: n.parent().map(|p| p.id().get_usize()),
        element: n.is_element(),
        tag: n.tag_name().name().to_string(),
        text: n.text().map(|t| t.to_string()),
        attributes: n.attributes().map(|a| XmlAttribute {
            name: a.name().to_string(),
            value: a.value().to_string(),
        }).collect(),
    }).collect())
}

/// The first element at or after `i` with the given local name.
pub open spec fn element_from(nodes: Seq<NodeView>, tag: Seq<char>, i: int) -> Option<int>
    decreases nodes.len() - i,
{
    if i >= nodes.len() {
        None
    } else if nodes[i].element && nodes[i].tag == tag {
        Some(i)
    } else {
        element_from(nodes, tag, i + 1)
    }
}

/// An element with local name `tag` directly below the node at `at`.
pub open spec fn is_child(n: NodeView, at: int, tag: Seq<char>) -> bool {
    n.parent matches Some(p) && p == at && n.element && n.tag == tag
}

/// The text that a node starts with, without surrounding white space.
pub open spec fn node_text(n: NodeView) -> Seq<char> {
    match n.text {
        Some(t) => text::trimmed(t),
        None => text::trimmed(Seq::empty()),
    }
}

/// The first text that is not blank among the children with local name `tag`; empty
/// where there is none.
pub open spec fn first_text(nodes: Seq<NodeView>, at: int, tag: Seq<char>) -> Seq<char>
    decreases nodes.len(),
{
    if nodes.len() == 0 {
        Seq::empty()
    } else {
        let before = first_text(nodes.drop_last(), at, tag);
        if before.len() > 0 || !is_child(nodes.last(), at, tag) {
            before
        } else {
            node_text(nodes.last())
        }
    }
}

/// The texts that are not blank of the children with local name `tag`, in order.
pub open spec fn all_texts(nodes: Seq<NodeView>, at: int, tag: Seq<char>) -> Seq<Seq<char>>
    decreases nodes.len(),
{
    if nodes.len() == 0 {
        Seq::empty()
    } else {
        let before = all_texts(nodes.drop_last(), at, tag);
        if is_child(nodes.last(), at, tag) && node_text(nodes.last()).len() > 0 {
            before.push(node_text(nodes.last()))
        } else {
            before
        }
    }
}

/// The value of the first attribute from `i` on that is called `name`; empty where
/// there is none.
pub open spec fn attribute_from(attributes: Seq<AttributeView>, name: Seq<char>, i: int) -> Seq<
    char,
>
    decreases attributes.len() - i,
{
    if i >= attributes.len() {
        Seq::empty()
    } else if attributes[i].name == name {
        attributes[i].value
    } else {
        attribute_from(attributes, name, i + 1)
    }
}

/// The metadata entry that a `meta` element writes.
pub open spec fn entry_of(n: NodeView) -> EntryView {
    EntryView {
        id: attribute_from(n.attributes, "id"@, 0),
        property: attribute_from(n.attributes, "property"@, 0),
        refines: attribute_from(n.attributes, "refines"@, 0),
        text: node_text(n),
    }
}

/// The entries of the `meta` children that name a property, in order.
pub open spec fn entries(nodes: Seq<NodeView>, at: int) -> Seq<EntryView>
    decreases nodes.len(),
{
    if nodes.len() == 0 {
        Seq::empty()
    } else {
        let before = entries(nodes.drop_last(), at);
        if is_child(nodes.last(), at, "meta"@) && entry_of(nodes.last()).property.len() > 0 {
            before.push(entry_of(nodes.last()))
        } else {
            before
        }
    }
}

/// The metadata that stands directly below the node at `at`.
pub open spec fn opf_below(nodes: Seq<NodeView>, at: int) -> OpfView {
    OpfView {
        description: first_text(nodes, at, "description"@),
        language: first_text(nodes, at, "language"@),
        date: first_text(nodes, at, "date"@),
        subjects: all_texts(nodes, at, "subject"@),
        sources: all_texts(nodes, at, "source"@),
        metas: entries(nodes, at),
    }
}

/// The metadata below the document's first `metadata` element, if it has one.
pub open spec fn opf_of(nodes: Seq<NodeView>) -> Option<OpfView> {
    match element_from(nodes, "metadata"@, 0) {
        Some(at) => Some(opf_below(nodes, at)),
        None => None,
    }
}

/// The value of the attribute called `name`; empty where there is none.
fn attribute(n: &XmlNode, name: &str) -> (r: String)
    ensures
        r@ == attribute_from(n@.attributes, name@, 0),
{
    let mut i: usize = 0;
    while i < n.attributes.len()
        invariant
            i <= n.attributes@.len(),
            attribute_from(n@.attributes, name@, 0) == attribute_from(
                n@.attributes,
                name@,
                i as int,
            ),
        decreases n.attributes@.len() - i,
    {
        assert(n@.attributes[i as int] == n.attributes@[i as int]@);
        if text::same(n.attributes[i].name.as_str(), name) {
            return n.attributes[i].value.clone();
        }
        i += 1;
    }
    String::new()
}

/// The text that a node starts with, without surrounding white space.
fn trimmed_text(n: &XmlNode) -> (r: String)
    ensures
        r@ == node_text(n@),
{
    match &n.text {
        Some(t) => text::trim(t.as_str()),
        None => {
            let empty = String::new();
            text::trim(empty.as_str())
        },
    }
}

/// The position of the first element called `tag`.
fn find_element(nodes: &Vec<XmlNode>, tag: &str) -> (r: Option<usize>)
    ensures
        match r {
            Some(i) => element_from(node_views(nodes@), tag@, 0) == Some(i as int),
            None => element_from(node_views(nodes@), tag@, 0) is None,
        },
{
    let ghost views = node_views(nodes@);
    let mut i: usize = 0;
    while i < nodes.len()
        invariant
            i <= nodes@.len(),
            views == node_views(nodes@),
            element_from(views, tag@, 0) == element_from(views, tag@, i as int),
        decreases nodes@.len() - i,
    {
        assert(views[i as int] == nodes@[i as int]@);
        if nodes[i].element && text::same(nodes[i].tag.as_str(), tag) {
            return Some(i);
        }
        i += 1;
    }
    None
}

/// Adds what one child of the `metadata` element says to what the ones before said.
fn take_child(meta: &mut OpfMeta, n: &XmlNode, Ghost(before): Ghost<Seq<NodeView>>, at: usize)
    requires
        old(meta)@ == opf_below(before, at as int),
        n@.element,
        n@.parent == Some(at),
    ensures
        final(meta)@ == opf_below(before.push(n@), at as int),
{
    let ghost after = before.push(n@);
    let ghost start = meta@;
    let ghost k = at as int;
    proof {
        assert(after.drop_last() =~= before);
        assert(after.last() == n@);
        reveal_strlit("description");
        reveal_strlit("language");
        reveal_strlit("date");
        reveal_strlit("subject");
        reveal_strlit("source");
        reveal_strlit("meta");
        assert("description"@.len() == 11 && "language"@.len() == 8 && "date"@.len() == 4);
        assert("subject"@.len() == 7 && "source"@.len() == 6 && "meta"@.len() == 4);
        assert("date"@[0] != "meta"@[0]);
        if !is_child(n@, k, "description"@) {
            assert(first_text(after, k, "description"@) == start.description);
        }
        if !is_child(n@, k, "language"@) {
            assert(first_text(after, k, "language"@) == start.language);
        }
        if !is_child(n@, k, "date"@) {
            assert(first_text(after, k, "date"@) == start.date);
        }
        if !is_child(n@, k, "subject"@) {
            assert(all_texts(after, k, "subject"@) == start.subjects);
        }
        if !is_child(n@, k, "source"@) {
            assert(all_texts(after, k, "source"@) == start.sources);
        }
        if !is_child(n@, k, "meta"@) {
            assert(entries(after, k) == start.metas);
        }
    }
    let tag = n.tag.as_str();
    let value = trimmed_text(n);
    if text::same(tag, "description") {
        if meta.description.as_str().is_empty() && !value.as_str().is_empty() {
            meta.description = value;
        }
    } else if text::same(tag, "language") {
        if meta.language.as_str().is_empty() && !value.as_str().is_empty() {
            meta.language = value;
        }
    } else if text::same(tag, "date") {
        if meta.date.as_str().is_empty() && !value.as_str().is_empty() {
            meta.date = value;
        }
    } else if text::same(tag, "subject") {
        if !value.as_str().is_empty() {
            meta.subjects.push(value);
            assert(text::views(meta.subjects@) =~= start.subjects.push(node_text(n@)));
        }
    } else if text::same(tag, "source") {
        if !value.as_str().is_empty() {
            meta.sources.push(value);
            assert(text::views(meta.sources@) =~= start.sources.push(node_text(n@)));
        }
    } else if text::same(tag, "meta") {
        let id = attribute(n, "id");
        let property = attribute(n, "property");
        let refines = attribute(n, "refines");
        if !property.as_str().is_empty() {
            meta.metas.push(MetaEntry { id, property, refines, text: value });
            assert(entry_views(meta.metas@) =~= start.metas.push(entry_of(n@)));
        }
    }
    assert(meta@ =~= opf_below(after, k));
}

/// The metadata of a package document, given as its nodes in document order.
pub fn parse_opf_nodes(nodes: &Vec<XmlNode>) -> (r: Result<OpfMeta, String>)
    ensures
        match r {
            Ok(meta) => opf_of(node_views(nodes@)) == Some(meta@),
            Err(e) => opf_of(node_views(nodes@)) is None && e@ == "no metadata element"@,
        },
{
    let at = match find_element(nodes, "metadata") {
        Some(at) => at,
        None => {
            return Err("no metadata element".to_string());
        },
    };
    let mut meta = OpfMeta {
        description: String::new(),
        language: String::new(),
        date: String::new(),
        subjects: Vec::new(),
        sources: Vec::new(),
        metas: Vec::new(),
    };
    let ghost views = node_views(nodes@);
    let ghost k = at as int;
    let mut i: usize = 0;
    assert(meta@ =~= opf_below(views.take(0), k));
    while i < nodes.len()
        invariant
            i <= nodes@.len(),
            views == node_views(nodes@),
            k == at,
            meta@ == opf_below(views.take(i as int), k),
        decreases nodes@.len() - i,
    {
        let n = &nodes[i];
        let ghost before = views.take(i as int);
        assert(views.take(i + 1) =~= before.push(n@));
        let child = match n.parent {
            Some(p) => p == at,
            None => false,
        };
        if child && n.element {
            take_child(&mut meta, n, Ghost(before), at);
        } else {
            assert(before.push(n@).drop_last() =~= before);
            assert(opf_below(before.push(n@), k) =~= opf_below(before, k));
        }
        i += 1;
    }
    assert(views.take(i as int) =~= views);
    Ok(meta)
}

/// The metadata of a package document, given as its text.
pub fn parse_opf_xml(xml: &str) -> (r: Result<OpfMeta, String>)
    ensures
        match xml_document(xml@) {
            Err(e) => r matches Err(m) && m@ == "XML parse: "@ + e,
            Ok(nodes) => match opf_of(nodes) {
                Some(meta) => r matches Ok(m) && m@ == meta,
                None => r matches Err(m) && m@ == "no metadata element"@,
            },
        },
{
    match read_xml(xml) {
        Ok(nodes) => parse_opf_nodes(&nodes),
        Err(e) => Err("XML parse: ".to_string().concat(e.as_str())),
    }
}

/// An attribute has the value that the first of that name gives; an element without one
/// has none.
pub proof fn law_first_attribute_counts(
    before: Seq<AttributeView>,
    a: AttributeView,
    after: Seq<AttributeView>,
)
    requires
        forall|k: int| 0 <= k < before.len() ==> (#[trigger] before[k]).name != a.name,
    ensures
        attribute_from(before + seq![a] + after, a.name, 0) == a.value,
        attribute_from(before, a.name, 0).len() == 0,
{
    let all = before + seq![a] + after;
    lemma_attribute_is(all, a.name, 0, before.len() as int);
    lemma_attribute_is(before, a.name, 0, before.len() as int);
}

proof fn lemma_attribute_is(attributes: Seq<AttributeView>, name: Seq<char>, i: int, n: int)
    requires
        0 <= i <= n <= attributes.len(),
        forall|k: int| i <= k < n ==> (#[trigger] attributes[k]).name != name,
    ensures
        n == attributes.len() ==> attribute_from(attributes, name, i).len() == 0,
        n < attributes.len() && attributes[n].name == name ==> attribute_from(attributes, name, i)
            == attributes[n].value,
    decreases n - i,
{
    if i < n {
        assert(attributes[i].name != name);
        lemma_attribute_is(attributes, name, i + 1, n);
    }
}

/// The metadata stand below the first element that is called `metadata`, wherever in the
/// document it is; a document without one has none.
pub proof fn law_metadata_is_the_first_of_its_name(nodes: Seq<NodeView>, at: int)
    requires
        0 <= at <= nodes.len(),
        forall|k: int|
            0 <= k < at ==> !(#[trigger] nodes[k]).element || nodes[k].tag != "metadata"@,
    ensures
        at < nodes.len() && nodes[at].element && nodes[at].tag == "metadata"@ ==> opf_of(nodes)
            == Some(opf_below(nodes, at)),
        at == nodes.len() ==> opf_of(nodes) is None,
{
    lemma_element_is(nodes, "metadata"@, 0, at);
}

proof fn lemma_element_is(nodes: Seq<NodeView>, tag: Seq<char>, i: int, n: int)
    requires
        0 <= i <= n <= nodes.len(),
        forall|k: int| i <= k < n ==> !(#[trigger] nodes[k]).element || nodes[k].tag != tag,
    ensures
        n == nodes.len() ==> element_from(nodes, tag, i) is None,
        n < nodes.len() && nodes[n].element && nodes[n].tag == tag ==> element_from(nodes, tag, i)
            == Some(n),
    decreases n - i,
{
    if i < n {
        assert(!nodes[i].element || nodes[i].tag != tag);
        lemma_element_is(nodes, tag, i + 1, n);
    }
}

/// The text that an element starts with, without white space around it; empty where it
/// starts with none.
pub open spec fn said_by(n: NodeView) -> Seq<char> {
    if n.text is Some {
        text::trimmed(n.text->0)
    } else {
        Seq::empty()
    }
}

proof fn lemma_said_by(n: NodeView)
    ensures
        said_by(n) == node_text(n),
{
    assert(text::trimmed(Seq::empty()) =~= Seq::empty());
}

/// The subjects are the texts of all elements called `subject` directly below the
/// metadata, in order and without the blank ones; the sources are those of the elements
/// called `source`.
pub proof fn law_subjects_and_sources_are_all_kept(nodes: Seq<NodeView>, at: usize)
    ensures
        opf_below(nodes, at as int).subjects == nodes.filter(
            |n: NodeView|
                n.parent == Some(at) && n.element && n.tag == "subject"@ && said_by(n).len() > 0,
        ).map_values(|n: NodeView| said_by(n)),
        opf_below(nodes, at as int).sources == nodes.filter(
            |n: NodeView|
                n.parent == Some(at) && n.element && n.tag == "source"@ && said_by(n).len() > 0,
        ).map_values(|n: NodeView| said_by(n)),
{
    lemma_all_texts_filtered(nodes, at, "subject"@);
    lemma_all_texts_filtered(nodes, at, "source"@);
}

proof fn lemma_all_texts_filtered(nodes: Seq<NodeView>, at: usize, tag: Seq<char>)
    ensures
        all_texts(nodes, at as int, tag) == nodes.filter(
            |n: NodeView|
                n.parent == Some(at) && n.element && n.tag == tag && said_by(n).len() > 0,
        ).map_values(|n: NodeView| said_by(n)),
    decreases nodes.len(),
{
    reveal(Seq::filter);
    let p = |n: NodeView|
        n.parent == Some(at) && n.element && n.tag == tag && said_by(n).len() > 0;
    let f = |n: NodeView| said_by(n);
    if nodes.len() > 0 {
        lemma_all_texts_filtered(nodes.drop_last(), at, tag);
        lemma_said_by(nodes.last());
        let init = nodes.drop_last().filter(p);
        assert(init.push(nodes.last()).map_values(f) =~= init.map_values(f).push(f(nodes.last())));
        assert(all_texts(nodes, at as int, tag) =~= nodes.filter(p).map_values(f));
    } else {
        assert(all_texts(nodes, at as int, tag) =~= nodes.filter(p).map_values(f));
    }
}

/// The element says something of the metadata at `at`, under the given name.
pub open spec fn says_below(n: NodeView, at: usize, tag: Seq<char>) -> bool {
    n.parent == Some(at) && n.element && n.tag == tag && said_by(n).len() > 0
}

/// The description is the first text that is not blank of an element called `description`
/// directly below the metadata; the language and the date likewise. Where there is none
/// they are empty.
pub proof fn law_first_text_counts(
    before: Seq<NodeView>,
    n: NodeView,
    after: Seq<NodeView>,
    at: usize,
)
    ensures
        ({
            let r = opf_below(before + seq![n] + after, at as int);
            let none = opf_below(before, at as int);
            &&& (forall|k: int|
                0 <= k < before.len() ==> !says_below(#[trigger] before[k], at, "description"@))
                ==> none.description.len() == 0 && (says_below(n, at, "description"@)
                ==> r.description == said_by(n))
            &&& (forall|k: int|
                0 <= k < before.len() ==> !says_below(#[trigger] before[k], at, "language"@))
                ==> none.language.len() == 0 && (says_below(n, at, "language"@) ==> r.language
                == said_by(n))
            &&& (forall|k: int|
                0 <= k < before.len() ==> !says_below(#[trigger] before[k], at, "date"@))
                ==> none.date.len() == 0 && (says_below(n, at, "date"@) ==> r.date == said_by(n))
        }),
{
    lemma_first_text_is(before, n, after, at, "description"@);
    lemma_first_text_is(before, n, after, at, "language"@);
    lemma_first_text_is(before, n, after, at, "date"@);
}

proof fn lemma_first_text_is(
    before: Seq<NodeView>,
    n: NodeView,
    after: Seq<NodeView>,
    at: usize,
    tag: Seq<char>,
)
    ensures
        (forall|k: int| 0 <= k < before.len() ==> !says_below(#[trigger] before[k], at, tag))
            ==> first_text(before, at as int, tag).len() == 0 && (says_below(n, at, tag)
            ==> first_text(before + seq![n] + after, at as int, tag) == said_by(n)),
    decreases before.len(), after.len(),
{
    let all = before + seq![n] + after;
    lemma_said_by(n);
    if forall|k: int| 0 <= k < before.len() ==> !says_below(#[trigger] before[k], at, tag) {
        lemma_no_text(before, at, tag);
        if after.len() == 0 {
            assert(all.drop_last() =~= before);
            assert(all.last() == n);
        } else {
            lemma_first_text_is(before, n, after.drop_last(), at, tag);
            assert(all.drop_last() =~= before + seq![n] + after.drop_last());
        }
    }
}

proof fn lemma_no_text(nodes: Seq<NodeView>, at: usize, tag: Seq<char>)
    requires
        forall|k: int| 0 <= k < nodes.len() ==> !says_below(#[trigger] nodes[k], at, tag),
    ensures
        first_text(nodes, at as int, tag).len() == 0,
    decreases nodes.len(),
{
    if nodes.len() > 0 {
        let init = nodes.drop_last();
        assert(forall|k: int| 0 <= k < init.len() ==> #[trigger] init[k] == nodes[k]);
        lemma_no_text(init, at, tag);
        lemma_said_by(nodes.last());
        assert(nodes.last() == nodes[nodes.len() - 1]);
    }
}

/// The entries are those of all elements called `meta` directly below the metadata that
/// name a property, in order, blank ones among them; each has its element's identifier,
/// property, what it refines, and its text.
pub proof fn law_entries_are_all_kept(nodes: Seq<NodeView>, at: usize)
    ensures
        opf_below(nodes, at as int).metas == nodes.filter(
            |n: NodeView|
                n.parent == Some(at) && n.element && n.tag == "meta"@ && attribute_from(
                    n.attributes,
                    "property"@,
                    0,
                ).len() > 0,
        ).map_values(
            |n: NodeView|
                EntryView {
                    id: attribute_from(n.attributes, "id"@, 0),
                    property: attribute_from(n.attributes, "property"@, 0),
                    refines: attribute_from(n.attributes, "refines"@, 0),
                    text: said_by(n),
                },
        ),
    decreases nodes.len(),
{
    reveal(Seq::filter);
    let p = |n: NodeView|
        n.parent == Some(at) && n.element && n.tag == "meta"@ && attribute_from(
            n.attributes,
            "property"@,
            0,
        ).len() > 0;
    let f = |n: NodeView|
        EntryView {
            id: attribute_from(n.attributes, "id"@, 0),
            property: attribute_from(n.attributes, "property"@, 0),
            refines: attribute_from(n.attributes, "refines"@, 0),
            text: said_by(n),
        };
    if nodes.len() > 0 {
        law_entries_are_all_kept(nodes.drop_last(), at);
        lemma_said_by(nodes.last());
        let init = nodes.drop_last().filter(p);
        assert(f(nodes.last()) =~= entry_of(nodes.last()));
        assert(init.push(nodes.last()).map_values(f) =~= init.map_values(f).push(f(nodes.last())));
        assert(entries(nodes, at as int) =~= nodes.filter(p).map_values(f));
    } else {
        assert(entries(nodes, at as int) =~= nodes.filter(p).map_values(f));
    }
}

} // verus!
