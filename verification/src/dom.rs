//! A parsed HTML document as an arena of nodes.
//!
//! Nodes are stored in depth-first pre-order, so index order is document
//! order; every child's index is strictly greater than its parent's, which
//! bounds recursion over the tree.  Element nodes carry their tag name and
//! attribute list; text nodes carry their character data.  Node kinds that
//! carry no text and no attributes (the document root, doctypes, comments,
//! processing instructions) are a kind of their own, which no pass matches
//! and which the root-element search skips.

use vstd::prelude::*;

verus! {

pub enum NodeData {
    Element { tag: String, attrs: Vec<(String, String)> },
    Text { content: String },
    Other,
}

pub struct DomNode {
    pub data: NodeData,
    pub children: Vec<usize>,
}

pub struct Dom {
    pub nodes: Vec<DomNode>,
}

// ---------------------------------------------------------------------------
// Views
// ---------------------------------------------------------------------------

pub enum NodeDataView {
    Element { tag: Seq<char>, attrs: Seq<(Seq<char>, Seq<char>)> },
    Text { content: Seq<char> },
    Other,
}

pub struct NodeView {
    pub data: NodeDataView,
    pub children: Seq<usize>,
}

/// The character sequences of an attribute list.
pub open spec fn attrs_view(a: Seq<(String, String)>) -> Seq<(Seq<char>, Seq<char>)> {
    a.map_values(|p: (String, String)| (p.0@, p.1@))
}

impl View for NodeData {
    type V = NodeDataView;

    open spec fn view(&self) -> NodeDataView {
        match self {
            NodeData::Element { tag, attrs } => NodeDataView::Element {
                tag: tag@,
                attrs: attrs_view(attrs@),
            },
            NodeData::Text { content } => NodeDataView::Text { content: content@ },
            NodeData::Other => NodeDataView::Other,
        }
    }
}

impl View for DomNode {
    type V = NodeView;

    open spec fn view(&self) -> NodeView {
        NodeView { data: self.data@, children: self.children@ }
    }
}

impl View for Dom {
    type V = Seq<NodeView>;

    open spec fn view(&self) -> Seq<NodeView> {
        self.nodes@.map_values(|n: DomNode| n@)
    }
}

/// Arena well-formedness: non-empty, and every child index lies strictly
/// between its parent's index and the arena's length.
pub open spec fn wf_dom(d: Seq<NodeView>) -> bool {
    d.len() >= 1 && forall|i: int, k: int|
        0 <= i < d.len() && 0 <= k < d[i].children.len() ==> i < #[trigger] d[i].children[k]
            < d.len()
}

pub open spec fn is_elem(n: NodeView) -> bool {
    n.data is Element
}

pub open spec fn tag_of(n: NodeView) -> Seq<char> {
    match n.data {
        NodeDataView::Element { tag, .. } => tag,
        NodeDataView::Text { .. } => Seq::<char>::empty(),
        NodeDataView::Other => Seq::<char>::empty(),
    }
}

/// The value of the first attribute named `name`, if any.
pub open spec fn spec_attr(attrs: Seq<(Seq<char>, Seq<char>)>, name: Seq<char>) -> Option<
    Seq<char>,
>
    decreases attrs.len(),
{
    if attrs.len() == 0 {
        None
    } else if attrs[0].0 == name {
        Some(attrs[0].1)
    } else {
        spec_attr(attrs.drop_first(), name)
    }
}

pub open spec fn attr_of(n: NodeView, name: Seq<char>) -> Option<Seq<char>> {
    match n.data {
        NodeDataView::Element { attrs, .. } => spec_attr(attrs, name),
        NodeDataView::Text { .. } => None,
        NodeDataView::Other => None,
    }
}

/// The `class` attribute, or the empty string when absent.
pub open spec fn class_of(n: NodeView) -> Seq<char> {
    match attr_of(n, "class"@) {
        Some(v) => v,
        None => Seq::<char>::empty(),
    }
}

// ---------------------------------------------------------------------------
// Flattened descendant text
// ---------------------------------------------------------------------------

/// All character data under node `i` (itself included), in document order.
pub open spec fn flat_text(d: Seq<NodeView>, i: int) -> Seq<char>
    decreases d.len() - i, 1int, 0int,
{
    if 0 <= i < d.len() {
        (match d[i].data {
            NodeDataView::Text { content } => content,
            NodeDataView::Element { .. } => Seq::<char>::empty(),
            NodeDataView::Other => Seq::<char>::empty(),
        }) + flat_kids(d, d[i].children, i, 0)
    } else {
        Seq::<char>::empty()
    }
}

/// Character data under the children `kids[k..]` of the node at `parent`.
pub open spec fn flat_kids(d: Seq<NodeView>, kids: Seq<usize>, parent: int, k: int) -> Seq<char>
    decreases d.len() - parent, 0int, kids.len() - k,
{
    if 0 <= k < kids.len() && 0 <= parent < d.len() {
        (if parent < kids[k] < d.len() {
            flat_text(d, kids[k] as int)
        } else {
            Seq::<char>::empty()
        }) + flat_kids(d, kids, parent, k + 1)
    } else {
        Seq::<char>::empty()
    }
}

/// Number of nodes in the subtree rooted at `i` (a termination potential for
/// the stack-based traversals).
pub open spec fn size_node(d: Seq<NodeView>, i: int) -> nat
    decreases d.len() - i, 1int, 0int,
{
    if 0 <= i < d.len() {
        1 + size_kids(d, d[i].children, i, 0)
    } else {
        0
    }
}

/// Number of nodes in the subtrees of the children `kids[k..]`.
pub open spec fn size_kids(d: Seq<NodeView>, kids: Seq<usize>, parent: int, k: int) -> nat
    decreases d.len() - parent, 0int, kids.len() - k,
{
    if 0 <= k < kids.len() && 0 <= parent < d.len() {
        (if parent < kids[k] < d.len() {
            size_node(d, kids[k] as int)
        } else {
            0
        }) + size_kids(d, kids, parent, k + 1)
    } else {
        0
    }
}

/// Nodes still to be traversed below the frames of a traversal stack: each
/// frame is a node index and the position of its next unvisited child.
pub open spec fn stack_work(d: Seq<NodeView>, st: Seq<(usize, usize)>) -> nat
    decreases st.len(),
{
    if st.len() == 0 {
        0
    } else {
        size_kids(d, d[st.last().0 as int].children, st.last().0 as int, st.last().1 as int)
            + stack_work(d, st.drop_last())
    }
}

/// Character data still to be collected by the frames of a flattening stack,
/// innermost frame first.
pub open spec fn stack_flat(d: Seq<NodeView>, st: Seq<(usize, usize)>) -> Seq<char>
    decreases st.len(),
{
    if st.len() == 0 {
        Seq::<char>::empty()
    } else {
        flat_kids(d, d[st.last().0 as int].children, st.last().0 as int, st.last().1 as int)
            + stack_flat(d, st.drop_last())
    }
}

// ---------------------------------------------------------------------------
// Executable code
// ---------------------------------------------------------------------------

/// Looks up the first attribute named `name`.
pub fn find_attr(attrs: &Vec<(String, String)>, name: &str) -> (r: Option<String>)
    ensures
        match r {
            Some(v) => spec_attr(attrs_view(attrs@), name@) == Some(v@),
            None => spec_attr(attrs_view(attrs@), name@) is None,
        },
{
    let ghost av = attrs_view(attrs@);
    let name_owned = name.to_owned();
    let mut k: usize = 0;
    proof {
        assert(av.skip(0) =~= av);
    }
    while k < attrs.len()
        invariant
            0 <= k <= attrs@.len(),
            av == attrs_view(attrs@),
            av.len() == attrs@.len(),
            name_owned@ == name@,
            spec_attr(av, name@) == spec_attr(av.skip(k as int), name@),
        decreases attrs@.len() - k,
    {
        proof {
            assert(av.skip(k as int)[0] == av[k as int]);
            assert(av[k as int] == (attrs@[k as int].0@, attrs@[k as int].1@));
        }
        if attrs[k].0 == name_owned {
            return Some(attrs[k].1.clone());
        }
        proof {
            assert(av.skip(k as int).drop_first() =~= av.skip(k as int + 1));
        }
        k = k + 1;
    }
    proof {
        assert(av.skip(k as int) =~= Seq::<(Seq<char>, Seq<char>)>::empty());
    }
    None
}

/// Appends all character data under node `i` to `out`, walking the subtree
/// with an explicit stack so that nesting depth never grows the call stack.
pub fn flat_into(d: &Dom, i: usize, out: &mut String)
    requires
        wf_dom(d@),
        i < d@.len(),
    ensures
        final(out)@ == old(out)@ + flat_text(d@, i as int),
{
    emit_text(d, i, out);
    let mut stack: Vec<(usize, usize)> = Vec::new();
    stack.push((i, 0));
    let ghost own_i = match d@[i as int].data {
        NodeDataView::Text { content } => content,
        NodeDataView::Element { .. } => Seq::<char>::empty(),
        NodeDataView::Other => Seq::<char>::empty(),
    };
    proof {
        let fk = flat_kids(d@, d@[i as int].children, i as int, 0);
        assert(stack@.last() == (i, 0usize));
        assert(stack@.drop_last() =~= Seq::<(usize, usize)>::empty());
        assert(stack_flat(d@, stack@) == fk + stack_flat(d@, stack@.drop_last()));
        assert(stack_flat(d@, Seq::<(usize, usize)>::empty()) == Seq::<char>::empty());
        assert(fk + Seq::<char>::empty() =~= fk);
        assert(flat_text(d@, i as int) == own_i + fk);
        assert((old(out)@ + own_i) + fk =~= old(out)@ + (own_i + fk));
    }
    while stack.len() > 0
        invariant
            wf_dom(d@),
            forall|f: int|
                0 <= f < stack@.len() ==> (#[trigger] stack@[f]).0 < d@.len() && stack@[f].1
                    <= d@[stack@[f].0 as int].children.len(),
            out@ + stack_flat(d@, stack@) == old(out)@ + flat_text(d@, i as int),
        decreases 2 * stack_work(d@, stack@) + stack@.len(),
    {
        let top = stack.len() - 1;
        let n = stack[top].0;
        let k = stack[top].1;
        let ghost pre_stack = stack@;
        let node = &d.nodes[n];
        proof {
            assert(pre_stack.last() == (n, k));
            assert(d@[n as int] == d.nodes@[n as int]@);
        }
        let ghost kids = d@[n as int].children;
        let ghost base = pre_stack.drop_last();
        let ghost rest = stack_flat(d@, base);
        proof {
            assert(stack_flat(d@, pre_stack) == flat_kids(d@, kids, n as int, k as int) + rest);
            assert(stack_work(d@, pre_stack) == size_kids(d@, kids, n as int, k as int)
                + stack_work(d@, base));
        }
        if k < node.children.len() {
            let c = node.children[k];
            proof {
                assert(kids[k as int] == c);
                assert(n < c < d@.len());
            }
            stack.pop();
            stack.push((n, k + 1));
            stack.push((c, 0));
            let ghost pre_out = out@;
            emit_text(d, c, out);
            proof {
                let ckids = d@[c as int].children;
                let own_c = match d@[c as int].data {
                    NodeDataView::Text { content } => content,
                    NodeDataView::Element { .. } => Seq::<char>::empty(),
                    NodeDataView::Other => Seq::<char>::empty(),
                };
                assert(stack@ =~= base.push((n, (k + 1) as usize)).push((c, 0usize)));
                assert(stack@.last() == (c, 0usize));
                assert(stack@.drop_last() =~= base.push((n, (k + 1) as usize)));
                assert(stack@.drop_last().last() == (n, (k + 1) as usize));
                assert(stack@.drop_last().drop_last() =~= base);
                assert(stack_flat(d@, stack@.drop_last()) == flat_kids(
                    d@,
                    kids,
                    n as int,
                    k as int + 1,
                ) + rest);
                assert(stack_flat(d@, stack@) == flat_kids(d@, ckids, c as int, 0) + (flat_kids(
                    d@,
                    kids,
                    n as int,
                    k as int + 1,
                ) + rest));
                assert(flat_kids(d@, kids, n as int, k as int) == flat_text(d@, c as int)
                    + flat_kids(d@, kids, n as int, k as int + 1));
                assert(flat_text(d@, c as int) == own_c + flat_kids(d@, ckids, c as int, 0));
                assert(out@ == pre_out + own_c);
                assert(pre_out + ((own_c + flat_kids(d@, ckids, c as int, 0)) + flat_kids(
                    d@,
                    kids,
                    n as int,
                    k as int + 1,
                ) + rest) =~= (pre_out + own_c) + (flat_kids(d@, ckids, c as int, 0) + (flat_kids(
                    d@,
                    kids,
                    n as int,
                    k as int + 1,
                ) + rest)));
                assert(pre_out + stack_flat(d@, pre_stack) =~= out@ + stack_flat(d@, stack@));
                // the traversal potential falls by one node
                assert(size_kids(d@, kids, n as int, k as int) == size_node(d@, c as int)
                    + size_kids(d@, kids, n as int, k as int + 1));
                assert(size_node(d@, c as int) == 1 + size_kids(d@, ckids, c as int, 0));
                assert(stack_work(d@, stack@.drop_last()) == size_kids(
                    d@,
                    kids,
                    n as int,
                    k as int + 1,
                ) + stack_work(d@, base));
                assert(stack_work(d@, stack@) == size_kids(d@, ckids, c as int, 0) + (size_kids(
                    d@,
                    kids,
                    n as int,
                    k as int + 1,
                ) + stack_work(d@, base)));
                assert(stack_work(d@, stack@) + 1 == stack_work(d@, pre_stack));
            }
        } else {
            stack.pop();
            proof {
                assert(stack@ =~= base);
                assert(flat_kids(d@, kids, n as int, k as int) =~= Seq::<char>::empty());
                assert(Seq::<char>::empty() + stack_flat(d@, stack@) =~= stack_flat(d@, stack@));
                assert(size_kids(d@, kids, n as int, k as int) == 0);
                assert(stack_work(d@, stack@) == stack_work(d@, pre_stack));
            }
        }
    }
    proof {
        assert(stack_flat(d@, stack@) =~= Seq::<char>::empty());
        assert(out@ + Seq::<char>::empty() =~= out@);
    }
}

/// Appends the node's own character data to `out`: text content for a text
/// node, nothing for the other kinds.
fn emit_text(d: &Dom, i: usize, out: &mut String)
    requires
        i < d@.len(),
    ensures
        final(out)@ == old(out)@ + (match d@[i as int].data {
            NodeDataView::Text { content } => content,
            NodeDataView::Element { .. } => Seq::<char>::empty(),
            NodeDataView::Other => Seq::<char>::empty(),
        }),
{
    proof {
        assert(d@[i as int] == d.nodes@[i as int]@);
    }
    match &d.nodes[i].data {
        NodeData::Text { content } => {
            out.append(content.as_str());
        },
        NodeData::Element { .. } => {},
        NodeData::Other => {
            proof {
                assert(out@ + Seq::<char>::empty() =~= out@);
            }
        },
    }
}

// ---------------------------------------------------------------------------
// Parsing (trusted)
// ---------------------------------------------------------------------------

/// The arena built from an HTML string: a pure function of the markup, since
/// the parser applies no configuration and reads nothing else.
pub uninterp spec fn dom_of(html: Seq<char>) -> Seq<NodeView>;

/// `scraper::Node`, the value carried by each node of the parsed tree.
#[verifier::external_type_specification]
#[verifier::external_body]
pub struct ExScraperNode(scraper::Node);

/// Relies on scraper's node classification: text nodes carry their character
/// data and elements their tag name and attribute list; all other node kinds
/// (the document root, doctypes, comments, processing instructions) carry
/// neither.
#[verifier::external_body]
fn convert_node(v: &scraper::Node) -> NodeData {
    match v {
        scraper::Node::Text(t) => NodeData::Text { content: (&**t).to_owned() },
        scraper::Node::Element(e) => NodeData::Element {
            tag: e.name().to_owned(),
            attrs: e.attrs().map(|(k, a)| (k.to_owned(), a.to_owned())).collect(),
        },
        _ => NodeData::Other,
    }
}

/// Relies on `scraper::Html::parse_document` to build the document tree, and
/// on `ego_tree`'s traversal order: `descendants` yields the tree's nodes in
/// depth-first pre-order (so index order is document order) and `children`
/// yields each node's children left to right.  The parser is total: malformed
/// markup yields a best-effort tree, never an error.
#[verifier::external_body]
pub(crate) fn parse_html(html: &str) -> (d: Dom)
    ensures
        d@ == dom_of(html@),
        wf_dom(d@),
{
    let doc = scraper::Html::parse_document(html);
    let refs: Vec<_> = doc.tree.root().descendants().collect();
    let idx: std::collections::HashMap<_, _> =
        refs.iter().enumerate().map(|(i, n)| (n.id(), i)).collect();
    let nodes = refs.iter().map(|n| DomNode {
        data: convert_node(n.value()),
        children: n.children().map(|c| idx[&c.id()]).collect(),
    }).collect();
    Dom { nodes }
}

} // verus!
