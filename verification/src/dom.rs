//! The document tree on which extraction works.
//!
//! A document is a sequence of nodes in document order (pre-order): every
//! node stands before its descendants, and the descendants of a node form
//! the contiguous run of indices that follows it. Each node knows its
//! parent; children, siblings, descendants and subtree text are all derived
//! from that.

use vstd::prelude::*;
use vstd::string::StringExecFns;
use vstd::utf8::encode_utf8;

use crate::strings::str_eq;

verus! {

/// What a node holds: text, an element with its attributes, or a comment.
pub enum NodeData {
    Text(String),
    Element(String, Vec<(String, String)>),
    Comment(String),
}

/// One node of a document: the index of its parent, if any, and its data.
pub struct RawNode {
    pub parent: Option<usize>,
    pub data: NodeData,
}

/// The mathematical form of `NodeData`.
pub enum DataModel {
    Text(Seq<char>),
    Element(Seq<char>, Seq<(Seq<char>, Seq<char>)>),
    Comment(Seq<char>),
}

/// The mathematical form of `RawNode`.
pub struct NodeModel {
    pub parent: Option<int>,
    pub data: DataModel,
}

/// A document as specifications see it.
pub type Tree = Seq<NodeModel>;

/// The attribute list of an element as pairs of character sequences.
pub open spec fn attrs_view(attrs: Seq<(String, String)>) -> Seq<(Seq<char>, Seq<char>)> {
    Seq::new(attrs.len(), |i: int| (attrs[i].0@, attrs[i].1@))
}

impl View for NodeData {
    type V = DataModel;

    open spec fn view(&self) -> DataModel {
        match self {
            NodeData::Text(s) => DataModel::Text(s@),
            NodeData::Element(name, attrs) => DataModel::Element(name@, attrs_view(attrs@)),
            NodeData::Comment(s) => DataModel::Comment(s@),
        }
    }
}

impl View for RawNode {
    type V = NodeModel;

    open spec fn view(&self) -> NodeModel {
        NodeModel {
            parent: match self.parent {
                Some(p) => Some(p as int),
                None => None,
            },
            data: self.data@,
        }
    }
}

/// The tree that a vector of nodes stands for.
pub open spec fn nodes_view(nodes: Seq<RawNode>) -> Tree {
    Seq::new(nodes.len(), |i: int| nodes[i]@)
}

/// Node `j` lies in document order: its parent, if it has one, stands
/// before it, and every node between that parent and `j` has a parent that
/// is no earlier than it, so that the parent's subtree is one unbroken run.
pub open spec fn in_order(t: Tree, j: int) -> bool {
    t[j].parent matches Some(p) ==> {
        &&& 0 <= p < j
        &&& forall|k: int| p < k <= j ==> (#[trigger] t[k].parent matches Some(q) && q >= p)
    }
}

/// The largest number of nodes that a document holds.
pub const MAX_NODES: usize = 0x7fff_ffff;

/// Every node of `t` lies in document order, and `t` holds no more than
/// `MAX_NODES` nodes.
pub open spec fn well_formed(t: Tree) -> bool {
    &&& t.len() <= MAX_NODES
    &&& forall|j: int| 0 <= j < t.len() ==> in_order(t, j)
}

/// Where the scan for the end of the subtree of `i` stops when it has
/// reached `k`: at the first node from `k` on whose parent is missing or
/// stands before `i`, or at the end of the document.
pub open spec fn subtree_end_from(t: Tree, i: int, k: int) -> int
    decreases t.len() - k,
{
    if k >= t.len() {
        t.len() as int
    } else if t[k].parent matches Some(q) && q >= i {
        subtree_end_from(t, i, k + 1)
    } else {
        k
    }
}

/// One past the last descendant of node `i`: the descendants of `i` are the
/// nodes `i + 1 .. subtree_end(t, i)`, in document order.
pub open spec fn subtree_end(t: Tree, i: int) -> int {
    subtree_end_from(t, i, i + 1)
}

/// Node `j` is a descendant of node `i`.
pub open spec fn is_descendant(t: Tree, i: int, j: int) -> bool {
    i < j < subtree_end(t, i)
}

/// Node `i` has no children.
pub open spec fn is_leaf(t: Tree, i: int) -> bool {
    !(i + 1 < t.len() && t[i + 1].parent == Some(i))
}

/// The next sibling of node `i`: the node that follows its subtree, if that
/// node has the same parent.
pub open spec fn next_sibling(t: Tree, i: int) -> Option<int> {
    let e = subtree_end(t, i);
    if e < t.len() && t[e].parent == t[i].parent {
        Some(e)
    } else {
        None
    }
}

/// The tag name of node `i` if it is an element.
pub open spec fn name_of(t: Tree, i: int) -> Option<Seq<char>> {
    match t[i].data {
        DataModel::Element(name, _) => Some(name),
        _ => None,
    }
}

/// The value of the first attribute named `key` among `attrs[k..]`.
pub open spec fn attr_from(attrs: Seq<(Seq<char>, Seq<char>)>, key: Seq<char>, k: int) -> Option<
    Seq<char>,
>
    decreases attrs.len() - k,
{
    if k < 0 || k >= attrs.len() {
        None
    } else if attrs[k].0 == key {
        Some(attrs[k].1)
    } else {
        attr_from(attrs, key, k + 1)
    }
}

/// The value of attribute `key` of node `i`: that of the first attribute of
/// that name if the node is an element.
pub open spec fn attr_of(t: Tree, i: int, key: Seq<char>) -> Option<Seq<char>> {
    match t[i].data {
        DataModel::Element(_, attrs) => attr_from(attrs, key, 0),
        _ => None,
    }
}

/// The text that node `k` itself holds: its content if it is a text node,
/// nothing otherwise.
pub open spec fn own_text(t: Tree, k: int) -> Seq<char> {
    match t[k].data {
        DataModel::Text(s) => s,
        _ => Seq::empty(),
    }
}

/// The concatenation of the text held by the nodes `lo .. hi`.
pub open spec fn text_between(t: Tree, lo: int, hi: int) -> Seq<char>
    decreases hi - lo,
{
    if hi <= lo {
        Seq::empty()
    } else {
        text_between(t, lo, hi - 1) + own_text(t, hi - 1)
    }
}

/// The full text of the subtree of node `i`, in document order.
pub open spec fn text_of(t: Tree, i: int) -> Seq<char> {
    text_between(t, i, subtree_end(t, i))
}

/// The scan for the end of a subtree stays within the document and ends
/// after the node it started from.
pub proof fn lemma_subtree_end_bounds(t: Tree, i: int, k: int)
    requires
        0 <= i < k <= t.len(),
    ensures
        k <= subtree_end_from(t, i, k) <= t.len(),
    decreases t.len() - k,
{
    if k < t.len() && (t[k].parent matches Some(q) && q >= i) {
        lemma_subtree_end_bounds(t, i, k + 1);
    }
}

/// A validated document.
pub struct Document {
    nodes: Vec<RawNode>,
}

impl View for Document {
    type V = Tree;

    closed spec fn view(&self) -> Tree {
        nodes_view(self.nodes@)
    }
}

impl Document {
    /// The invariant of every document.
    #[verifier::type_invariant]
    pub open spec fn wf(&self) -> bool {
        well_formed(self@)
    }

    /// Checks that node `j` lies in document order, given that all nodes
    /// before it do.
    fn check_node(nodes: &Vec<RawNode>, j: usize) -> (ok: bool)
        requires
            j < nodes.len(),
            forall|i: int| 0 <= i < j ==> in_order(nodes_view(nodes@), i),
        ensures
            ok == in_order(nodes_view(nodes@), j as int),
    {
        let ghost t = nodes_view(nodes@);
        match nodes[j].parent {
            None => true,
            Some(p) => {
                if p >= j {
                    return false;
                }
                let mut cur: usize = j - 1;
                while cur > p
                    invariant
                        p <= cur < j < nodes.len(),
                        t == nodes_view(nodes@),
                        t[j as int].parent == Some(p as int),
                        forall|i: int| 0 <= i < j ==> in_order(t, i),
                        forall|k: int|
                            cur < k < j ==> (#[trigger] t[k].parent matches Some(q) && q >= cur),
                    decreases cur,
                {
                    match nodes[cur].parent {
                        None => {
                            assert(!(t[cur as int].parent matches Some(q) && q >= p));
                            return false;
                        },
                        Some(q) => {
                            if q < p {
                                assert(!(t[cur as int].parent matches Some(q) && q >= p));
                                return false;
                            }
                            assert(in_order(t, cur as int));
                            cur = q;
                        },
                    }
                }
                true
            },
        }
    }

    /// Makes a document of `nodes` if they lie in document order and are no
    /// more than `MAX_NODES`.
    pub fn new(nodes: Vec<RawNode>) -> (r: Option<Document>)
        ensures
            r is Some <==> well_formed(nodes_view(nodes@)),
            r matches Some(d) ==> d@ == nodes_view(nodes@),
    {
        let ghost t = nodes_view(nodes@);
        if nodes.len() > MAX_NODES {
            return None;
        }
        let mut j: usize = 0;
        while j < nodes.len()
            invariant
                j <= nodes.len() <= MAX_NODES,
                t == nodes_view(nodes@),
                forall|i: int| 0 <= i < j ==> in_order(t, i),
            decreases nodes.len() - j,
        {
            if !Self::check_node(&nodes, j) {
                return None;
            }
            j = j + 1;
        }
        Some(Document { nodes })
    }

    /// The number of nodes.
    pub fn len(&self) -> (n: usize)
        ensures
            n == self@.len(),
            n <= MAX_NODES,
    {
        proof {
            use_type_invariant(self);
        }
        self.nodes.len()
    }

    /// The parent of node `i`.
    pub fn parent(&self, i: usize) -> (r: Option<usize>)
        requires
            i < self@.len(),
        ensures
            r is Some <==> self@[i as int].parent is Some,
            r matches Some(p) ==> self@[i as int].parent == Some(p as int) && p < i,
    {
        proof {
            use_type_invariant(self);
            assert(in_order(self@, i as int));
        }
        self.nodes[i].parent
    }

    /// The tag name of node `i` if it is an element.
    pub fn name(&self, i: usize) -> (r: Option<&str>)
        requires
            i < self@.len(),
        ensures
            r is Some <==> name_of(self@, i as int) is Some,
            r matches Some(s) ==> name_of(self@, i as int) == Some(s@),
    {
        match &self.nodes[i].data {
            NodeData::Element(name, _) => Some(name.as_str()),
            _ => None,
        }
    }

    /// The content of node `i` if it is a text node.
    pub fn as_text(&self, i: usize) -> (r: Option<&str>)
        requires
            i < self@.len(),
        ensures
            r is Some <==> self@[i as int].data is Text,
            r matches Some(s) ==> self@[i as int].data == DataModel::Text(s@),
    {
        match &self.nodes[i].data {
            NodeData::Text(text) => Some(text.as_str()),
            _ => None,
        }
    }

    /// The value of attribute `key` of node `i`.
    pub fn attr(&self, i: usize, key: &str) -> (r: Option<&str>)
        requires
            i < self@.len(),
        ensures
            r is Some <==> attr_of(self@, i as int, key@) is Some,
            r matches Some(s) ==> attr_of(self@, i as int, key@) == Some(s@),
    {
        match &self.nodes[i].data {
            NodeData::Element(_, attrs) => {
                let ghost model = attrs_view(attrs@);
                assert(attr_of(self@, i as int, key@) == attr_from(model, key@, 0));
                let mut k: usize = 0;
                while k < attrs.len()
                    invariant
                        k <= attrs.len(),
                        model == attrs_view(attrs@),
                        attr_of(self@, i as int, key@) == attr_from(model, key@, k as int),
                    decreases attrs.len() - k,
                {
                    if str_eq(attrs[k].0.as_str(), key) {
                        return Some(attrs[k].1.as_str());
                    }
                    k = k + 1;
                }
                None
            },
            _ => None,
        }
    }

    /// One past the last descendant of node `i`.
    pub fn subtree_end(&self, i: usize) -> (e: usize)
        requires
            i < self@.len(),
        ensures
            e == subtree_end(self@, i as int),
            i < e <= self@.len(),
    {
        let n = self.nodes.len();
        assert(self@.len() == n);
        let mut k: usize = i + 1;
        loop
            invariant
                i < k <= self.nodes.len(),
                subtree_end(self@, i as int) == subtree_end_from(self@, i as int, k as int),
            ensures
                i < k <= self.nodes.len(),
                k == subtree_end(self@, i as int),
            decreases self.nodes.len() - k,
        {
            if k >= self.nodes.len() {
                break;
            }
            match self.nodes[k].parent {
                Some(q) => {
                    if q < i {
                        break;
                    }
                },
                None => {
                    break;
                },
            }
            k = k + 1;
        }
        k
    }

    /// Whether node `i` has no children.
    pub fn is_leaf(&self, i: usize) -> (r: bool)
        requires
            i < self@.len(),
        ensures
            r == is_leaf(self@, i as int),
    {
        let n = self.nodes.len();
        assert(self@.len() == n);
        if i + 1 < n {
            match self.nodes[i + 1].parent {
                Some(p) => p != i,
                None => true,
            }
        } else {
            true
        }
    }

    /// The next sibling of node `i`.
    pub fn next(&self, i: usize) -> (r: Option<usize>)
        requires
            i < self@.len(),
        ensures
            r is Some <==> next_sibling(self@, i as int) is Some,
            r matches Some(n) ==> next_sibling(self@, i as int) == Some(n as int) && i < n
                < self@.len(),
    {
        let e = self.subtree_end(i);
        if e < self.nodes.len() {
            let same = match (self.nodes[e].parent, self.nodes[i].parent) {
                (Some(a), Some(b)) => a == b,
                (None, None) => true,
                _ => false,
            };
            if same {
                Some(e)
            } else {
                None
            }
        } else {
            None
        }
    }

    /// The full text of the subtree of node `i`.
    pub fn text(&self, i: usize) -> (r: String)
        requires
            i < self@.len(),
        ensures
            r@ == text_of(self@, i as int),
    {
        let end = self.subtree_end(i);
        let mut out = String::new();
        let mut k: usize = i;
        while k < end
            invariant
                i <= k <= end <= self.nodes.len(),
                out@ == text_between(self@, i as int, k as int),
            decreases end - k,
        {
            match &self.nodes[k].data {
                NodeData::Text(text) => {
                    out.append(text.as_str());
                },
                _ => {
                    assert(out@ + own_text(self@, k as int) == out@);
                },
            }
            k = k + 1;
        }
        out
    }
}

/// The nodes that the HTML parser makes of a text, in document order: the
/// elements, texts and comments of the parsed page, each with the index of
/// its parent.
pub uninterp spec fn parsed_html(html: Seq<char>) -> Seq<NodeModel>;

/// The most bytes of HTML that the parser takes. The parser keeps text in
/// buffers that cannot grow past 2^31 bytes, and a text can take three
/// times its bytes in such a buffer, where each of its NUL characters
/// becomes U+FFFD: the limit is a third of 2^31.
pub const MAX_HTML_BYTES: usize = 0x2aaa_aaaa;

/// The text is short enough for the parser: in UTF-8 it takes no more than
/// `MAX_HTML_BYTES` bytes.
pub open spec fn fits_parser(html: Seq<char>) -> bool {
    encode_utf8(html).len() <= MAX_HTML_BYTES
}

/// The text yields a document: it is short enough for the parser, and the
/// parser makes no more than `MAX_NODES` nodes of it.
pub open spec fn parsable(html: Seq<char>) -> bool {
    fits_parser(html) && parsed_html(html).len() <= MAX_NODES
}

/// `Document::from` of the crate `select`, which parses HTML with
/// `html5ever`, and the nodes of the document it returns, each with its
/// parent and its data; of the name of an element or attribute the local
/// part is kept. The crate walks the parsed tree from the top and appends
/// each node, with the index of its parent, before it goes on to the
/// children of that node: so every node lies in document order.
///
/// The crate ends in a panic where one of its text buffers would grow past
/// 2^31 bytes; texts of more than `MAX_HTML_BYTES` bytes, which alone can
/// come to that, are left out. The walk of the parsed tree calls itself
/// once for each level of nesting, and nothing limits the nesting: on a
/// text with tens of thousands of open tags inside one another the call
/// can run out of stack, as it can run out of memory on any long text.
#[verifier::external_body]
fn parse_nodes(html: &str) -> (nodes: Vec<RawNode>)
    requires
        fits_parser(html@),
    ensures
        nodes_view(nodes@) == parsed_html(html@),
        forall|j: int| 0 <= j < nodes@.len() ==> in_order(nodes_view(nodes@), j),
{
    let own = |t: &str| t.to_string();
    select::document::Document::from(html).nodes.into_iter().map(|raw| RawNode {
        parent: raw.parent,
        data: match raw.data {
            select::node::Data::Text(text) => NodeData::Text(own(&text)),
            select::node::Data::Element(name, attrs) => NodeData::Element(
                own(&name.local),
                attrs.into_iter().map(|(k, v)| (own(&k.local), own(&v))).collect(),
            ),
            select::node::Data::Comment(text) => NodeData::Comment(own(&text)),
        },
    }).collect()
}

impl Document {
    /// Parses HTML into a document. The parser decides what the nodes are;
    /// nothing comes back if the text is too long for the parser, or if
    /// the parser makes more than `MAX_NODES` nodes of it. On a text with
    /// tags nested tens of thousands deep the parser can run out of stack.
    pub fn from_html(html: &str) -> (r: Option<Document>)
        ensures
            r is Some <==> parsable(html@),
            r matches Some(d) ==> d@ == parsed_html(html@),
    {
        if html.as_bytes().len() > MAX_HTML_BYTES {
            return None;
        }
        Document::new(parse_nodes(html))
    }
}

/// The scan for the end of the subtree of `i` does not pass a node at which
/// it must stop.
pub proof fn lemma_subtree_end_stops(t: Tree, i: int, k: int, e: int)
    requires
        0 <= i < k <= e <= t.len(),
        e < t.len() ==> !(t[e].parent matches Some(q) && q >= i),
    ensures
        subtree_end_from(t, i, k) <= e,
    decreases e - k,
{
    if k < e && (t[k].parent matches Some(q) && q >= i) {
        lemma_subtree_end_stops(t, i, k + 1, e);
    }
}

/// Where the scan for the end of the subtree of `i` stops, it must: at the
/// end of the document, or at a node whose parent is missing or stands
/// before `i`; and every node it has passed has a parent that does not
/// stand before `i`.
pub proof fn lemma_subtree_end_from(t: Tree, i: int, k: int)
    requires
        0 <= i < k <= t.len(),
    ensures
        ({
            let e = subtree_end_from(t, i, k);
            &&& k <= e <= t.len()
            &&& e < t.len() ==> !(t[e].parent matches Some(q) && q >= i)
            &&& forall|j: int| k <= j < e ==> (#[trigger] t[j].parent matches Some(q) && q >= i)
        }),
    decreases t.len() - k,
{
    if k < t.len() && (t[k].parent matches Some(q) && q >= i) {
        lemma_subtree_end_from(t, i, k + 1);
    }
}

/// The subtree of a descendant lies within the subtree of its ancestor.
pub proof fn lemma_subtree_nested(t: Tree, i: int, d: int)
    requires
        0 <= i,
        is_descendant(t, i, d),
    ensures
        subtree_end(t, d) <= subtree_end(t, i),
{
    lemma_subtree_end_from(t, i, i + 1);
    lemma_subtree_end_stops(t, d, d + 1, subtree_end(t, i));
}

/// Node `a` stands on the chain of parents that leads up from node `j`.
pub open spec fn is_ancestor(t: Tree, a: int, j: int) -> bool
    decreases j,
{
    match t[j].parent {
        Some(p) => 0 <= p < j && (p == a || is_ancestor(t, a, p)),
        None => false,
    }
}

/// The scan for the end of the subtree of `i` passes every node whose
/// parent does not stand before `i`.
proof fn lemma_subtree_end_passes(t: Tree, i: int, k: int, j: int)
    requires
        0 <= i < k <= j < t.len(),
        forall|m: int| k <= m <= j ==> (#[trigger] t[m].parent matches Some(q) && q >= i),
    ensures
        subtree_end_from(t, i, k) > j,
    decreases j - k,
{
    if k < j {
        lemma_subtree_end_passes(t, i, k + 1, j);
    } else {
        lemma_subtree_end_bounds(t, i, k + 1);
    }
}

/// In a document, the run of nodes that follows a node up to the end of
/// its subtree holds exactly its descendants: the nodes from which the
/// chain of parents leads up to it.
pub proof fn lemma_descendants(t: Tree, a: int, j: int)
    requires
        well_formed(t),
        0 <= a < t.len(),
        0 <= j < t.len(),
    ensures
        is_descendant(t, a, j) <==> is_ancestor(t, a, j),
    decreases j,
{
    lemma_subtree_end_from(t, a, a + 1);
    assert(in_order(t, j));
    if is_descendant(t, a, j) {
        let p = t[j].parent->0;
        assert(t[j].parent matches Some(q) && q >= a);
        if p != a {
            lemma_descendants(t, a, p);
        }
    }
    if is_ancestor(t, a, j) {
        let p = t[j].parent->0;
        if p != a {
            lemma_descendants(t, a, p);
        }
        assert forall|m: int| a + 1 <= m <= j implies (#[trigger] t[m].parent matches Some(q) && q
            >= a) by {
            if m > p {
                assert(t[m].parent matches Some(q) && q >= p);
            }
        }
        lemma_subtree_end_passes(t, a, a + 1, j);
    }
}

/// In a document, a leaf is a node that is the parent of no node.
pub proof fn lemma_leaf(t: Tree, i: int)
    requires
        well_formed(t),
        0 <= i < t.len(),
    ensures
        is_leaf(t, i) <==> forall|j: int| 0 <= j < t.len() ==> t[j].parent != Some(i),
{
    if !is_leaf(t, i) {
        assert(t[i + 1].parent == Some(i));
    }
    if exists|j: int| 0 <= j < t.len() && t[j].parent == Some(i) {
        let j = choose|j: int| 0 <= j < t.len() && t[j].parent == Some(i);
        assert(in_order(t, j));
        assert(in_order(t, i + 1));
        assert(t[i + 1].parent matches Some(q) && q >= i);
    }
}

/// In a document, the next sibling of a node is the first node behind it
/// that has the same parent.
pub proof fn lemma_next_sibling(t: Tree, i: int)
    requires
        well_formed(t),
        0 <= i < t.len(),
    ensures
        match next_sibling(t, i) {
            Some(e) => {
                &&& i < e < t.len()
                &&& t[e].parent == t[i].parent
                &&& forall|j: int| i < j < e ==> t[j].parent != t[i].parent
            },
            None => forall|j: int| i < j < t.len() ==> t[j].parent != t[i].parent,
        },
{
    let e = subtree_end(t, i);
    lemma_subtree_end_from(t, i, i + 1);
    assert(in_order(t, i));
    assert forall|j: int| i < j < e implies t[j].parent != t[i].parent by {
        assert(t[j].parent matches Some(q) && q >= i);
    }
    if next_sibling(t, i) is None {
        assert forall|j: int| i < j < t.len() implies t[j].parent != t[i].parent by {
            if j >= e && t[j].parent == t[i].parent {
                assert(in_order(t, j));
                assert(in_order(t, e));
                match t[i].parent {
                    Some(p) => {
                        assert(t[e].parent matches Some(q) && q >= p);
                        let q = t[e].parent->0;
                        if q > p {
                            assert(t[i].parent matches Some(r) && r >= q);
                        }
                    },
                    None => {
                        if t[e].parent is Some {
                            let q = t[e].parent->0;
                            assert(t[i].parent matches Some(r) && r >= q);
                        }
                    },
                }
            }
        }
    }
}

} // verus!
