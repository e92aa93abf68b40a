//! Structural extraction of product-like text and image candidates.
//!
//! Three passes over the parsed document feed two result lists: an
//! unconditional pass over a fixed list of semantic tags, a class-heuristic
//! walk of the tree below the root element, and an image pass that resolves
//! every `img` source against the caller's base URL.

use vstd::prelude::*;

use crate::dom::{
    attr_of, class_of, dom_of, find_attr, flat_into, is_elem, parse_html, tag_of,
    wf_dom, Dom, NodeData, NodeDataView, NodeView,
};
use crate::similarity::{is_related, spec_is_related, views_of_strs};
use crate::text::{lemma_views_push, spec_trim, trim_str, views_of};

verus! {

/// The only failure of extraction: the base URL is not an absolute URL.
#[derive(Clone, Copy, Debug, PartialEq, Eq, Structural)]
pub enum ParseError {
    InvalidBaseUrl,
}

/// The fixed keyword set of the class heuristic.
pub open spec fn spec_keywords() -> Seq<Seq<char>> {
    seq!["price"@, "product"@, "item"@, "name"@]
}

// ---------------------------------------------------------------------------
// URL resolution (trusted)
// ---------------------------------------------------------------------------

/// Whether `url::Url::parse` accepts `s`: a function of the string alone.
pub uninterp spec fn url_parse_ok(s: Seq<char>) -> bool;

/// Whether joining `src` onto the URL parsed from `base` succeeds.
pub uninterp spec fn url_join_ok(base: Seq<char>, src: Seq<char>) -> bool;

/// The serialization of the URL obtained by joining `src` onto `base`.
pub uninterp spec fn url_join(base: Seq<char>, src: Seq<char>) -> Seq<char>;

/// Relies on `url::Url::parse`: success depends on the input string alone.
#[verifier::external_body]
fn url_parse_ok_exec(s: &str) -> (r: bool)
    ensures
        r == url_parse_ok(s@),
{
    url::Url::parse(s).is_ok()
}

/// Relies on `url::Url::parse`, `url::Url::join` and `url::Url::as_str`:
/// parsing, relative-reference resolution and serialization are functions of
/// the two strings alone.
#[verifier::external_body]
fn url_join_exec(base: &str, src: &str) -> (r: Option<String>)
    ensures
        r.is_some() == (url_parse_ok(base@) && url_join_ok(base@, src@)),
        match r {
            Some(u) => u@ == url_join(base@, src@),
            None => true,
        },
{
    match url::Url::parse(base) {
        Ok(b) => match b.join(src) {
            Ok(u) => Some(u.as_str().to_owned()),
            Err(_) => None,
        },
        Err(_) => None,
    }
}

/// `p` is a prefix of `s`.
pub open spec fn starts_with(s: Seq<char>, p: Seq<char>) -> bool {
    s.len() >= p.len() && s.take(p.len() as int) == p
}

fn starts_with_exec(s: &str, p: &str) -> (r: bool)
    ensures
        r == starts_with(s@, p@),
{
    let n = s.unicode_len();
    let m = p.unicode_len();
    if n < m {
        return false;
    }
    let mut k: usize = 0;
    while k < m
        invariant
            0 <= k <= m,
            m <= n,
            n == s@.len(),
            m == p@.len(),
            forall|q: int| 0 <= q < k ==> s@[q] == p@[q],
        decreases m - k,
    {
        if s.get_char(k) != p.get_char(k) {
            proof {
                assert(s@.take(m as int)[k as int] != p@[k as int]);
            }
            return false;
        }
        k = k + 1;
    }
    proof {
        assert(s@.take(m as int) =~= p@);
    }
    true
}

/// An `src` value that already names its scheme is taken as absolute.
pub open spec fn is_absolute_src(s: Seq<char>) -> bool {
    starts_with(s, "http://"@) || starts_with(s, "https://"@)
}

/// The image URL emitted for a `src` value: absolute values pass through,
/// relative ones are resolved against the base, and values that resist
/// resolution pass through unchanged rather than being dropped.
pub open spec fn resolve_src(base: Seq<char>, src: Seq<char>) -> Seq<char> {
    if is_absolute_src(src) {
        src
    } else if url_parse_ok(base) && url_join_ok(base, src) {
        url_join(base, src)
    } else {
        src
    }
}

// ---------------------------------------------------------------------------
// The three passes, as one parameterized traversal
// ---------------------------------------------------------------------------

pub enum Pass {
    /// Collect the trimmed text of every element with this tag name.
    Tag(String),
    /// Collect the trimmed text of elements whose class matches the keywords.
    Walk,
    /// Collect the resolved `src` of every image, against this base URL.
    Img(String),
}

pub enum PassView {
    Tag(Seq<char>),
    Walk,
    Img(Seq<char>),
}

impl View for Pass {
    type V = PassView;

    open spec fn view(&self) -> PassView {
        match self {
            Pass::Tag(t) => PassView::Tag(t@),
            Pass::Walk => PassView::Walk,
            Pass::Img(b) => PassView::Img(b@),
        }
    }
}

/// What the node at `i` itself contributes to a pass.
pub open spec fn pass_own(d: Seq<NodeView>, i: int, sel: PassView) -> Seq<Seq<char>> {
    if 0 <= i < d.len() && is_elem(d[i]) {
        match sel {
            PassView::Tag(t) => {
                let tr = spec_trim(crate::dom::flat_text(d, i));
                if tag_of(d[i]) == t && tr.len() > 0 {
                    seq![tr]
                } else {
                    Seq::<Seq<char>>::empty()
                }
            },
            PassView::Walk => {
                let tr = spec_trim(crate::dom::flat_text(d, i));
                if spec_is_related(class_of(d[i]), spec_keywords()) && 0 < tr.len() < 75 {
                    seq![tr]
                } else {
                    Seq::<Seq<char>>::empty()
                }
            },
            PassView::Img(base) => match attr_of(d[i], "src"@) {
                Some(src) => if tag_of(d[i]) == "img"@ {
                    seq![resolve_src(base, src)]
                } else {
                    Seq::<Seq<char>>::empty()
                },
                None => Seq::<Seq<char>>::empty(),
            },
        }
    } else {
        Seq::<Seq<char>>::empty()
    }
}

/// Everything the subtree rooted at `i` contributes, in pre-order.
pub open spec fn pass_texts(d: Seq<NodeView>, i: int, sel: PassView) -> Seq<Seq<char>>
    decreases d.len() - i, 1int, 0int,
{
    if 0 <= i < d.len() {
        pass_own(d, i, sel) + pass_kids(d, d[i].children, i, 0, sel)
    } else {
        Seq::<Seq<char>>::empty()
    }
}

/// Contributions of the children `kids[k..]` of the node at `parent`.
pub open spec fn pass_kids(
    d: Seq<NodeView>,
    kids: Seq<usize>,
    parent: int,
    k: int,
    sel: PassView,
) -> Seq<Seq<char>>
    decreases d.len() - parent, 0int, kids.len() - k,
{
    if 0 <= k < kids.len() && 0 <= parent < d.len() {
        (if parent < kids[k] < d.len() {
            pass_texts(d, kids[k] as int, sel)
        } else {
            Seq::<Seq<char>>::empty()
        }) + pass_kids(d, kids, parent, k + 1, sel)
    } else {
        Seq::<Seq<char>>::empty()
    }
}

/// The flattened descendant text of node `i`, as one string.
fn flatten(d: &Dom, i: usize) -> (r: String)
    requires
        wf_dom(d@),
        i < d@.len(),
    ensures
        r@ == crate::dom::flat_text(d@, i as int),
{
    let mut s = String::new();
    flat_into(d, i, &mut s);
    proof {
        assert(Seq::<char>::empty() + crate::dom::flat_text(d@, i as int) =~= crate::dom::flat_text(
            d@,
            i as int,
        ));
    }
    s
}

/// Compares two string slices by characters.
fn str_eq(a: &str, b: &str) -> (r: bool)
    ensures
        r == (a@ == b@),
{
    let ra = a.to_owned();
    let rb = b.to_owned();
    ra == rb
}

/// Appends what the node at `i` itself contributes to the pass.
#[verifier::rlimit(60)]
fn emit_own(d: &Dom, i: usize, sel: &Pass, out: &mut Vec<String>)
    requires
        wf_dom(d@),
        i < d@.len(),
    ensures
        views_of(final(out)@) == views_of(old(out)@) + pass_own(d@, i as int, sel@),
{
    proof {
        assert(d@[i as int] == d.nodes@[i as int]@);
    }
    let ghost pre = out@;
    let ghost own = pass_own(d@, i as int, sel@);
    let node = &d.nodes[i];
    match &node.data {
        NodeData::Element { tag, attrs } => {
            match sel {
                Pass::Tag(t) => {
                    proof {
                        assert(sel@ == PassView::Tag(t@));
                        assert(tag_of(d@[i as int]) == tag@);
                    }
                    let same_tag = str_eq(tag.as_str(), t.as_str());
                    if same_tag {
                        let flat = flatten(d, i);
                        let tr = trim_str(flat.as_str());
                        if tr.unicode_len() > 0 {
                            let ghost tv = tr@;
                            out.push(tr);
                            proof {
                                lemma_views_push(pre, out@, tv);
                                assert(is_elem(d@[i as int]));
                                assert(tag_of(d@[i as int]) == t@);
                                assert(tv == spec_trim(crate::dom::flat_text(d@, i as int)));
                                assert(tv.len() > 0);
                                assert(own =~= seq![tv]);
                            }
                        } else {
                            proof {
                                assert(spec_trim(crate::dom::flat_text(d@, i as int)).len() == 0);
                                assert(own =~= Seq::<Seq<char>>::empty());
                            }
                        }
                    } else {
                        proof {
                            assert(tag_of(d@[i as int]) != t@);
                            assert(own =~= Seq::<Seq<char>>::empty());
                        }
                    }
                },
                Pass::Walk => {
                    proof {
                        assert(sel@ == PassView::Walk);
                    }
                    let cls = match find_attr(attrs, "class") {
                        Some(v) => v,
                        None => String::new(),
                    };
                    let keywords: Vec<&str> = vec!["price", "product", "item", "name"];
                    proof {
                        assert(views_of_strs(keywords@) =~= spec_keywords());
                        assert(cls@ == class_of(d@[i as int]));
                    }
                    if is_related(cls.as_str(), keywords.as_slice()) {
                        let flat = flatten(d, i);
                        let tr = trim_str(flat.as_str());
                        let len = tr.unicode_len();
                        if len > 0 && len < 75 {
                            let ghost tv = tr@;
                            out.push(tr);
                            proof {
                                lemma_views_push(pre, out@, tv);
                                assert(own =~= seq![tv]);
                            }
                        } else {
                            proof {
                                assert(own =~= Seq::<Seq<char>>::empty());
                            }
                        }
                    } else {
                        proof {
                            assert(own =~= Seq::<Seq<char>>::empty());
                        }
                    }
                },
                Pass::Img(base) => {
                    proof {
                        assert(sel@ == PassView::Img(base@));
                        assert(tag_of(d@[i as int]) == tag@);
                    }
                    let is_img = str_eq(tag.as_str(), "img");
                    if is_img {
                        match find_attr(attrs, "src") {
                            Some(src) => {
                                proof {
                                    assert(attr_of(d@[i as int], "src"@) == Some(src@));
                                }
                                let absolute = starts_with_exec(src.as_str(), "http://")
                                    || starts_with_exec(src.as_str(), "https://");
                                proof {
                                    assert(absolute == is_absolute_src(src@));
                                }
                                let ghost sv = src@;
                                let resolved = if absolute {
                                    src
                                } else {
                                    match url_join_exec(base.as_str(), src.as_str()) {
                                        Some(u) => u,
                                        None => src,
                                    }
                                };
                                let ghost rv = resolved@;
                                out.push(resolved);
                                proof {
                                    lemma_views_push(pre, out@, rv);
                                    assert(rv == resolve_src(base@, sv));
                                    assert(own =~= seq![rv]);
                                }
                            },
                            None => {
                                proof {
                                    assert(attr_of(d@[i as int], "src"@) is None);
                                    assert(own =~= Seq::<Seq<char>>::empty());
                                }
                            },
                        }
                    } else {
                        proof {
                            assert(own =~= Seq::<Seq<char>>::empty());
                        }
                    }
                },
            }
        },
        NodeData::Text { .. } => {
            proof {
                assert(!is_elem(d@[i as int]));
                assert(own =~= Seq::<Seq<char>>::empty());
            }
        },
        NodeData::Other => {
            proof {
                assert(!is_elem(d@[i as int]));
                assert(own =~= Seq::<Seq<char>>::empty());
            }
        },
    }
    proof {
        if out@ =~= pre {
            assert(views_of(pre) + Seq::<Seq<char>>::empty() =~= views_of(pre));
        }
        assert(views_of(out@) == views_of(pre) + own);
    }
}

/// Contributions still to be collected by the frames of a traversal stack,
/// innermost frame first.
pub open spec fn stack_pass(d: Seq<NodeView>, st: Seq<(usize, usize)>, sel: PassView) -> Seq<
    Seq<char>,
>
    decreases st.len(),
{
    if st.len() == 0 {
        Seq::<Seq<char>>::empty()
    } else {
        pass_kids(d, d[st.last().0 as int].children, st.last().0 as int, st.last().1 as int, sel)
            + stack_pass(d, st.drop_last(), sel)
    }
}

/// Runs one pass over the subtree rooted at `i`, appending its contributions
/// to `out` in pre-order, with an explicit stack so that nesting depth never
/// grows the call stack.
fn run_pass(d: &Dom, i: usize, sel: &Pass, out: &mut Vec<String>)
    requires
        wf_dom(d@),
        i < d@.len(),
    ensures
        views_of(final(out)@) == views_of(old(out)@) + pass_texts(d@, i as int, sel@),
{
    emit_own(d, i, sel, out);
    let mut stack: Vec<(usize, usize)> = Vec::new();
    stack.push((i, 0));
    proof {
        let fk = pass_kids(d@, d@[i as int].children, i as int, 0, sel@);
        assert(stack@.last() == (i, 0usize));
        assert(stack@.drop_last() =~= Seq::<(usize, usize)>::empty());
        assert(stack_pass(d@, stack@, sel@) == fk + stack_pass(
            d@,
            Seq::<(usize, usize)>::empty(),
            sel@,
        ));
        assert(stack_pass(d@, Seq::<(usize, usize)>::empty(), sel@) == Seq::<Seq<char>>::empty());
        assert(fk + Seq::<Seq<char>>::empty() =~= fk);
        assert(pass_texts(d@, i as int, sel@) == pass_own(d@, i as int, sel@) + fk);
        assert((views_of(old(out)@) + pass_own(d@, i as int, sel@)) + fk =~= views_of(old(out)@)
            + (pass_own(d@, i as int, sel@) + fk));
    }
    while stack.len() > 0
        invariant
            wf_dom(d@),
            forall|f: int|
                0 <= f < stack@.len() ==> (#[trigger] stack@[f]).0 < d@.len() && stack@[f].1
                    <= d@[stack@[f].0 as int].children.len(),
            views_of(out@) + stack_pass(d@, stack@, sel@) == views_of(old(out)@) + pass_texts(
                d@,
                i as int,
                sel@,
            ),
        decreases 2 * crate::dom::stack_work(d@, stack@) + stack@.len(),
    {
        let top = stack.len() - 1;
        let n = stack[top].0;
        let k = stack[top].1;
        let ghost pre_stack = stack@;
        let node = &d.nodes[n];
        proof {
            assert(pre_stack.last() == (n, k));
            assert(d@[n as int] == d.nodes@[n as int]@);
        }
        let ghost kids = d@[n as int].children;
        let ghost base = pre_stack.drop_last();
        let ghost rest = stack_pass(d@, base, sel@);
        proof {
            assert(stack_pass(d@, pre_stack, sel@) == pass_kids(d@, kids, n as int, k as int, sel@)
                + rest);
            assert(crate::dom::stack_work(d@, pre_stack) == crate::dom::size_kids(
                d@,
                kids,
                n as int,
                k as int,
            ) + crate::dom::stack_work(d@, base));
        }
        if k < node.children.len() {
            let c = node.children[k];
            proof {
                assert(kids[k as int] == c);
                assert(n < c < d@.len());
            }
            stack.pop();
            stack.push((n, k + 1));
            stack.push((c, 0));
            let ghost pre_out = out@;
            emit_own(d, c, sel, out);
            proof {
                let ckids = d@[c as int].children;
                let own_c = pass_own(d@, c as int, sel@);
                assert(stack@ =~= base.push((n, (k + 1) as usize)).push((c, 0usize)));
                assert(stack@.last() == (c, 0usize));
                assert(stack@.drop_last() =~= base.push((n, (k + 1) as usize)));
                assert(stack@.drop_last().last() == (n, (k + 1) as usize));
                assert(stack@.drop_last().drop_last() =~= base);
                assert(stack_pass(d@, stack@.drop_last(), sel@) == pass_kids(
                    d@,
                    kids,
                    n as int,
                    k as int + 1,
                    sel@,
                ) + rest);
                assert(stack_pass(d@, stack@, sel@) == pass_kids(d@, ckids, c as int, 0, sel@) + (
                pass_kids(d@, kids, n as int, k as int + 1, sel@) + rest));
                assert(pass_kids(d@, kids, n as int, k as int, sel@) == pass_texts(
                    d@,
                    c as int,
                    sel@,
                ) + pass_kids(d@, kids, n as int, k as int + 1, sel@));
                assert(pass_texts(d@, c as int, sel@) == own_c + pass_kids(
                    d@,
                    ckids,
                    c as int,
                    0,
                    sel@,
                ));
                assert(views_of(out@) == views_of(pre_out) + own_c);
                assert(views_of(pre_out) + ((own_c + pass_kids(d@, ckids, c as int, 0, sel@))
                    + pass_kids(d@, kids, n as int, k as int + 1, sel@) + rest) =~= (views_of(
                    pre_out,
                ) + own_c) + (pass_kids(d@, ckids, c as int, 0, sel@) + (pass_kids(
                    d@,
                    kids,
                    n as int,
                    k as int + 1,
                    sel@,
                ) + rest)));
                assert(views_of(pre_out) + stack_pass(d@, pre_stack, sel@) =~= views_of(out@)
                    + stack_pass(d@, stack@, sel@));
                // the traversal potential falls by one node
                assert(crate::dom::size_kids(d@, kids, n as int, k as int) == crate::dom::size_node(
                    d@,
                    c as int,
                ) + crate::dom::size_kids(d@, kids, n as int, k as int + 1));
                assert(crate::dom::size_node(d@, c as int) == 1 + crate::dom::size_kids(
                    d@,
                    ckids,
                    c as int,
                    0,
                ));
                assert(crate::dom::stack_work(d@, stack@.drop_last()) == crate::dom::size_kids(
                    d@,
                    kids,
                    n as int,
                    k as int + 1,
                ) + crate::dom::stack_work(d@, base));
                assert(crate::dom::stack_work(d@, stack@) == crate::dom::size_kids(
                    d@,
                    ckids,
                    c as int,
                    0,
                ) + (crate::dom::size_kids(d@, kids, n as int, k as int + 1)
                    + crate::dom::stack_work(d@, base)));
                assert(crate::dom::stack_work(d@, stack@) + 1 == crate::dom::stack_work(
                    d@,
                    pre_stack,
                ));
            }
        } else {
            stack.pop();
            proof {
                assert(stack@ =~= base);
                assert(pass_kids(d@, kids, n as int, k as int, sel@) =~= Seq::<Seq<char>>::empty());
                assert(Seq::<Seq<char>>::empty() + stack_pass(d@, stack@, sel@) =~= stack_pass(
                    d@,
                    stack@,
                    sel@,
                ));
                assert(crate::dom::size_kids(d@, kids, n as int, k as int) == 0);
                assert(crate::dom::stack_work(d@, stack@) == crate::dom::stack_work(d@, pre_stack));
            }
        }
    }
    proof {
        assert(stack_pass(d@, stack@, sel@) =~= Seq::<Seq<char>>::empty());
        assert(views_of(out@) + Seq::<Seq<char>>::empty() =~= views_of(out@));
    }
}

// ---------------------------------------------------------------------------
// The extractor
// ---------------------------------------------------------------------------

/// The first element among `kids[k..]`, if any.
pub open spec fn first_elem_child(d: Seq<NodeView>, kids: Seq<usize>, k: int) -> Option<int>
    decreases kids.len() - k,
{
    if 0 <= k < kids.len() {
        if 0 <= kids[k] < d.len() && is_elem(d[kids[k] as int]) {
            Some(kids[k] as int)
        } else {
            first_elem_child(d, kids, k + 1)
        }
    } else {
        None
    }
}

/// The document's root element: the first element child of the document node.
pub open spec fn spec_root_elem(d: Seq<NodeView>) -> Option<int> {
    if d.len() > 0 {
        first_elem_child(d, d[0].children, 0)
    } else {
        None
    }
}

/// What the class-heuristic walk collects: the contributions of everything
/// strictly below the root element, in pre-order.
pub open spec fn spec_walk_texts(d: Seq<NodeView>) -> Seq<Seq<char>> {
    match spec_root_elem(d) {
        Some(r) => if 0 <= r < d.len() {
            pass_kids(d, d[r].children, r, 0, PassView::Walk)
        } else {
            Seq::<Seq<char>>::empty()
        },
        None => Seq::<Seq<char>>::empty(),
    }
}

/// What the tag-priority pass collects: heading levels one to six, then
/// spans, then paragraphs, each tag over the whole document in order.
pub open spec fn spec_tag_texts(d: Seq<NodeView>) -> Seq<Seq<char>> {
    pass_texts(d, 0, PassView::Tag("h1"@)) + pass_texts(d, 0, PassView::Tag("h2"@)) + pass_texts(
        d,
        0,
        PassView::Tag("h3"@),
    ) + pass_texts(d, 0, PassView::Tag("h4"@)) + pass_texts(d, 0, PassView::Tag("h5"@))
        + pass_texts(d, 0, PassView::Tag("h6"@)) + pass_texts(d, 0, PassView::Tag("span"@))
        + pass_texts(d, 0, PassView::Tag("p"@))
}

/// The full text list: the tag-priority pass followed by the class walk.
pub open spec fn spec_texts(d: Seq<NodeView>) -> Seq<Seq<char>> {
    spec_tag_texts(d) + spec_walk_texts(d)
}

/// The image list: every `img` in document order, sources resolved.
pub open spec fn spec_images(d: Seq<NodeView>, base: Seq<char>) -> Seq<Seq<char>> {
    pass_texts(d, 0, PassView::Img(base))
}

fn node_is_elem(d: &Dom, c: usize) -> (r: bool)
    requires
        c < d@.len(),
    ensures
        r == is_elem(d@[c as int]),
{
    proof {
        assert(d@[c as int] == d.nodes@[c as int]@);
    }
    match &d.nodes[c].data {
        NodeData::Element { .. } => true,
        NodeData::Text { .. } => false,
        NodeData::Other => false,
    }
}

/// Collects the text list of a parsed document.
pub fn extract_texts(d: &Dom) -> (texts: Vec<String>)
    requires
        wf_dom(d@),
    ensures
        views_of(texts@) == spec_texts(d@),
{
    let mut texts: Vec<String> = Vec::new();
    proof {
        assert(views_of(texts@) =~= Seq::<Seq<char>>::empty());
        assert(Seq::<Seq<char>>::empty() + pass_texts(d@, 0, PassView::Tag("h1"@)) =~= pass_texts(
            d@,
            0,
            PassView::Tag("h1"@),
        ));
    }
    run_pass(d, 0, &Pass::Tag("h1".to_owned()), &mut texts);
    run_pass(d, 0, &Pass::Tag("h2".to_owned()), &mut texts);
    run_pass(d, 0, &Pass::Tag("h3".to_owned()), &mut texts);
    run_pass(d, 0, &Pass::Tag("h4".to_owned()), &mut texts);
    run_pass(d, 0, &Pass::Tag("h5".to_owned()), &mut texts);
    run_pass(d, 0, &Pass::Tag("h6".to_owned()), &mut texts);
    run_pass(d, 0, &Pass::Tag("span".to_owned()), &mut texts);
    run_pass(d, 0, &Pass::Tag("p".to_owned()), &mut texts);
    proof {
        assert(views_of(texts@) == spec_tag_texts(d@));
    }
    let ghost base_views = views_of(texts@);
    // the walk starts below the document's root element
    let root_kids_len = d.nodes[0].children.len();
    let ghost kids0 = d@[0].children;
    proof {
        assert(d@[0] == d.nodes@[0]@);
    }
    let mut found = false;
    let mut r: usize = 0;
    let mut rk: usize = 0;
    while !found && rk < root_kids_len
        invariant
            wf_dom(d@),
            d@[0] == d.nodes@[0]@,
            kids0 == d@[0].children,
            root_kids_len == kids0.len(),
            0 <= rk <= kids0.len(),
            !found ==> spec_root_elem(d@) == first_elem_child(d@, kids0, rk as int),
            found ==> spec_root_elem(d@) == Some(r as int) && 0 < r < d@.len(),
        decreases kids0.len() - rk, (if found { 0int } else { 1int }),
    {
        let c = d.nodes[0].children[rk];
        proof {
            assert(kids0[rk as int] == c);
            assert(0 < c < d@.len());
        }
        if node_is_elem(d, c) {
            found = true;
            r = c;
        } else {
            rk = rk + 1;
        }
    }
    if found {
        proof {
            assert(d@[r as int] == d.nodes@[r as int]@);
        }
        let ghost kidsr = d@[r as int].children;
        let walk_kids_len = d.nodes[r].children.len();
        let mut k: usize = 0;
        while k < walk_kids_len
            invariant
                wf_dom(d@),
                0 < r < d@.len(),
                d@[r as int] == d.nodes@[r as int]@,
                kidsr == d@[r as int].children,
                walk_kids_len == kidsr.len(),
                0 <= k <= kidsr.len(),
                views_of(texts@) + pass_kids(d@, kidsr, r as int, k as int, PassView::Walk)
                    == base_views + pass_kids(d@, kidsr, r as int, 0, PassView::Walk),
            decreases kidsr.len() - k,
        {
            let c = d.nodes[r].children[k];
            proof {
                assert(kidsr[k as int] == c);
                assert(r < c < d@.len());
            }
            let ghost before = texts@;
            run_pass(d, c, &Pass::Walk, &mut texts);
            proof {
                assert(pass_kids(d@, kidsr, r as int, k as int, PassView::Walk) == pass_texts(
                    d@,
                    c as int,
                    PassView::Walk,
                ) + pass_kids(d@, kidsr, r as int, k as int + 1, PassView::Walk));
                assert((views_of(before) + pass_texts(d@, c as int, PassView::Walk)) + pass_kids(
                    d@,
                    kidsr,
                    r as int,
                    k as int + 1,
                    PassView::Walk,
                ) =~= views_of(before) + (pass_texts(d@, c as int, PassView::Walk) + pass_kids(
                    d@,
                    kidsr,
                    r as int,
                    k as int + 1,
                    PassView::Walk,
                )));
            }
            k = k + 1;
        }
        proof {
            assert(pass_kids(d@, kidsr, r as int, k as int, PassView::Walk) =~= Seq::<
                Seq<char>,
            >::empty());
            assert(views_of(texts@) + Seq::<Seq<char>>::empty() =~= views_of(texts@));
            assert(spec_walk_texts(d@) == pass_kids(d@, kidsr, r as int, 0, PassView::Walk));
        }
    } else {
        proof {
            assert(spec_root_elem(d@) is None);
            assert(spec_walk_texts(d@) =~= Seq::<Seq<char>>::empty());
            assert(base_views + Seq::<Seq<char>>::empty() =~= base_views);
        }
    }
    texts
}

/// Collects the image list of a parsed document.
pub fn extract_images(d: &Dom, base_url: &str) -> (images: Vec<String>)
    requires
        wf_dom(d@),
    ensures
        views_of(images@) == spec_images(d@, base_url@),
{
    let mut images: Vec<String> = Vec::new();
    proof {
        assert(views_of(images@) =~= Seq::<Seq<char>>::empty());
        assert(Seq::<Seq<char>>::empty() + pass_texts(d@, 0, PassView::Img(base_url@))
            =~= pass_texts(d@, 0, PassView::Img(base_url@)));
    }
    run_pass(d, 0, &Pass::Img(base_url.to_owned()), &mut images);
    images
}

/// Extracts the text and image candidate lists from an HTML document.
///
/// Fails exactly when `url` does not parse as an absolute base URL; malformed
/// markup never fails, it yields a best-effort (possibly empty) result.
pub fn extract_text_and_images(resp: &String, url: &str) -> (r: Result<
    (Vec<String>, Vec<String>),
    ParseError,
>)
    ensures
        match r {
            Ok(p) => url_parse_ok(url@) && views_of(p.0@) == spec_texts(dom_of(resp@))
                && views_of(p.1@) == spec_images(dom_of(resp@), url@),
            Err(e) => !url_parse_ok(url@) && e == ParseError::InvalidBaseUrl,
        },
{
    if !url_parse_ok_exec(url) {
        return Err(ParseError::InvalidBaseUrl);
    }
    let dom = parse_html(resp.as_str());
    let texts = extract_texts(&dom);
    let images = extract_images(&dom, url);
    Ok((texts, images))
}

} // verus!
