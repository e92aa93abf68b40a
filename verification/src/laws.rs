//! Laws of the matcher and the extractor, stated and proved once for all
//! inputs.

use vstd::prelude::*;

use crate::dom::{dom_of, NodeView};
use crate::extractor::{
    pass_kids, pass_own, pass_texts, spec_images, spec_root_elem, spec_tag_texts, spec_texts,
    spec_walk_texts, PassView,
};
use crate::similarity::{
    is_separator, lemma_lev_le_subst, lemma_lev_one_subst, lemma_lev_self, lemma_lev_zero,
    lemma_subst_self, lemma_tokens_no_separator, lev, lower_of, spec_is_related, spec_tokens,
    subst_count, token_matches, tolerance,
};

verus! {

/// An attribute value equal to one of the keywords is always related: it is
/// its own single token, and a token matches its keyword at distance zero,
/// within every tolerance.
pub proof fn lemma_exact_keyword_matches(t: Seq<char>, keywords: Seq<Seq<char>>, j: int)
    requires
        t.len() >= 2,
        forall|k: int| 0 <= k < t.len() ==> !is_separator(t[k]),
        0 <= j < keywords.len(),
        keywords[j] == t,
    ensures
        spec_is_related(t, keywords),
{
    lemma_tokens_no_separator(t);
    assert(spec_tokens(t) == seq![t]);
    lemma_lev_self(crate::similarity::lower_of(t));
    assert(token_matches(spec_tokens(t)[0], keywords[j]));
}

/// An attribute value that is a single token matching some keyword is
/// related to every keyword set containing that keyword.
pub proof fn lemma_matching_token_relates(t: Seq<char>, keywords: Seq<Seq<char>>, j: int)
    requires
        t.len() >= 2,
        forall|k: int| 0 <= k < t.len() ==> !is_separator(t[k]),
        0 <= j < keywords.len(),
        token_matches(t, keywords[j]),
    ensures
        spec_is_related(t, keywords),
{
    lemma_tokens_no_separator(t);
    assert(spec_tokens(t) == seq![t]);
    assert(token_matches(spec_tokens(t)[0], keywords[j]));
}

/// A single substituted character stays within tolerance: for a keyword of at
/// least three characters the tolerance is at least one, and one substitution
/// costs at most one edit.  `a` and `b` are the lowercase forms compared.
pub proof fn lemma_one_substitution_within_tolerance(a: Seq<char>, b: Seq<char>)
    requires
        a.len() == b.len(),
        b.len() >= 3,
        subst_count(a, b) == 1,
    ensures
        lev(a, b) <= tolerance(b),
{
    lemma_lev_le_subst(a, b);
}

/// One substitution past the tolerance is rejected, for keywords of length
/// three to five (tolerance one): two differing positions force an edit
/// distance of at least two, since distance zero means equality and, at equal
/// lengths, distance one means exactly one differing position.
pub proof fn lemma_tolerance_boundary_excluded(a: Seq<char>, b: Seq<char>)
    requires
        a.len() == b.len(),
        3 <= b.len() < 6,
        subst_count(a, b) == tolerance(b) + 1,
    ensures
        lev(a, b) > tolerance(b),
{
    assert(tolerance(b) == 1);
    if lev(a, b) == 0 {
        lemma_lev_zero(a, b);
        lemma_subst_self(a);
        assert(false);
    }
    if lev(a, b) == 1 {
        lemma_lev_one_subst(a, b);
        assert(false);
    }
}

/// The tolerance boundary is exclusive: with a single keyword of at least
/// three characters whose lowercase form keeps its length (as every ASCII
/// keyword's does), a lone token whose lowercase form sits one edit past the
/// keyword's tolerance is rejected.
pub proof fn lemma_beyond_tolerance_not_related(t: Seq<char>, k: Seq<char>, keywords: Seq<Seq<char>>)
    requires
        t.len() >= 2,
        forall|q: int| 0 <= q < t.len() ==> !is_separator(t[q]),
        k.len() >= 3,
        lower_of(k).len() == k.len(),
        lev(lower_of(t), lower_of(k)) == k.len() / 3 + 1,
        keywords == seq![k],
    ensures
        !spec_is_related(t, keywords),
{
    lemma_tokens_no_separator(t);
    assert(spec_tokens(t) == seq![t]);
    assert(tolerance(lower_of(k)) == k.len() / 3);
    assert(!token_matches(t, k));
    assert forall|i: int, j: int|
        0 <= i < spec_tokens(t).len() && 0 <= j < keywords.len() implies !token_matches(
        spec_tokens(t)[i],
        keywords[j],
    ) by {
        assert(spec_tokens(t)[i] == t);
        assert(keywords[j] == k);
    }
}

/// The empty attribute value yields no tokens, so it is unrelated to every
/// keyword set.
pub proof fn lemma_empty_never_related(keywords: Seq<Seq<char>>)
    ensures
        !spec_is_related(Seq::<char>::empty(), keywords),
{
    assert(spec_tokens(Seq::<char>::empty()) =~= Seq::<Seq<char>>::empty());
}

/// Extraction is a pure function of the markup and the base URL: any two
/// outcomes that its contract allows on byte-identical inputs are the same
/// pair of lists.
pub proof fn lemma_extract_deterministic(
    html: Seq<char>,
    base: Seq<char>,
    t1: Seq<Seq<char>>,
    i1: Seq<Seq<char>>,
    t2: Seq<Seq<char>>,
    i2: Seq<Seq<char>>,
)
    requires
        t1 == spec_texts(dom_of(html)),
        i1 == spec_images(dom_of(html), base),
        t2 == spec_texts(dom_of(html)),
        i2 == spec_images(dom_of(html), base),
    ensures
        t1 == t2,
        i1 == i2,
{
}

/// What each pass may emit for one node: the tag pass only non-empty strings,
/// the class walk only non-empty strings under the length cap.
pub open spec fn pass_elem_ok(sel: PassView, s: Seq<char>) -> bool {
    match sel {
        PassView::Tag(_) => s.len() > 0,
        PassView::Walk => 0 < s.len() < 75,
        PassView::Img(_) => true,
    }
}

pub proof fn lemma_pass_texts_ok(d: Seq<NodeView>, i: int, sel: PassView)
    ensures
        forall|q: int|
            0 <= q < pass_texts(d, i, sel).len() ==> pass_elem_ok(
                sel,
                #[trigger] pass_texts(d, i, sel)[q],
            ),
    decreases d.len() - i, 1int, 0int,
{
    if 0 <= i < d.len() {
        lemma_pass_kids_ok(d, d[i].children, i, 0, sel);
        let own = pass_own(d, i, sel);
        let kids = pass_kids(d, d[i].children, i, 0, sel);
        assert forall|q: int| 0 <= q < pass_texts(d, i, sel).len() implies pass_elem_ok(
            sel,
            #[trigger] pass_texts(d, i, sel)[q],
        ) by {
            if q < own.len() {
                assert(pass_texts(d, i, sel)[q] == own[q]);
            } else {
                assert(pass_texts(d, i, sel)[q] == kids[q - own.len()]);
            }
        }
    }
}

proof fn lemma_pass_kids_ok(d: Seq<NodeView>, kids: Seq<usize>, parent: int, k: int, sel: PassView)
    ensures
        forall|q: int|
            0 <= q < pass_kids(d, kids, parent, k, sel).len() ==> pass_elem_ok(
                sel,
                #[trigger] pass_kids(d, kids, parent, k, sel)[q],
            ),
    decreases d.len() - parent, 0int, kids.len() - k,
{
    if 0 <= k < kids.len() && 0 <= parent < d.len() {
        lemma_pass_kids_ok(d, kids, parent, k + 1, sel);
        let head = if parent < kids[k] < d.len() {
            pass_texts(d, kids[k] as int, sel)
        } else {
            Seq::<Seq<char>>::empty()
        };
        if parent < kids[k] < d.len() {
            lemma_pass_texts_ok(d, kids[k] as int, sel);
        }
        let rest = pass_kids(d, kids, parent, k + 1, sel);
        assert forall|q: int| 0 <= q < pass_kids(d, kids, parent, k, sel).len() implies pass_elem_ok(
            sel,
            #[trigger] pass_kids(d, kids, parent, k, sel)[q],
        ) by {
            if q < head.len() {
                assert(pass_kids(d, kids, parent, k, sel)[q] == head[q]);
            } else {
                assert(pass_kids(d, kids, parent, k, sel)[q] == rest[q - head.len()]);
            }
        }
    }
}

/// The length cap: every string the class-heuristic walk collects is
/// non-empty and shorter than 75 characters after trimming.
pub proof fn lemma_walk_texts_bounded(d: Seq<NodeView>)
    ensures
        forall|q: int|
            0 <= q < spec_walk_texts(d).len() ==> 0 < (#[trigger] spec_walk_texts(d)[q]).len()
                < 75,
{
    match spec_root_elem(d) {
        Some(r) => {
            if 0 <= r < d.len() {
                lemma_pass_kids_ok(d, d[r].children, r, 0, PassView::Walk);
            }
        },
        None => {},
    }
}

/// All strings of a list are non-empty.
pub open spec fn all_nonempty(s: Seq<Seq<char>>) -> bool {
    forall|q: int| 0 <= q < s.len() ==> (#[trigger] s[q]).len() > 0
}

proof fn lemma_concat_nonempty(a: Seq<Seq<char>>, b: Seq<Seq<char>>)
    requires
        all_nonempty(a),
        all_nonempty(b),
    ensures
        all_nonempty(a + b),
{
    assert forall|q: int| 0 <= q < (a + b).len() implies (#[trigger] (a + b)[q]).len() > 0 by {
        if q < a.len() {
            assert((a + b)[q] == a[q]);
        } else {
            assert((a + b)[q] == b[q - a.len()]);
        }
    }
}

proof fn lemma_tag_pass_nonempty(d: Seq<NodeView>, t: Seq<char>)
    ensures
        all_nonempty(pass_texts(d, 0, PassView::Tag(t))),
{
    lemma_pass_texts_ok(d, 0, PassView::Tag(t));
}

/// Every string of the text list is non-empty after trimming: the tag pass
/// and the class walk both drop empty texts.
pub proof fn lemma_texts_nonempty(d: Seq<NodeView>)
    ensures
        all_nonempty(spec_texts(d)),
{
    let t1 = pass_texts(d, 0, PassView::Tag("h1"@));
    let t2 = pass_texts(d, 0, PassView::Tag("h2"@));
    let t3 = pass_texts(d, 0, PassView::Tag("h3"@));
    let t4 = pass_texts(d, 0, PassView::Tag("h4"@));
    let t5 = pass_texts(d, 0, PassView::Tag("h5"@));
    let t6 = pass_texts(d, 0, PassView::Tag("h6"@));
    let t7 = pass_texts(d, 0, PassView::Tag("span"@));
    let t8 = pass_texts(d, 0, PassView::Tag("p"@));
    lemma_tag_pass_nonempty(d, "h1"@);
    lemma_tag_pass_nonempty(d, "h2"@);
    lemma_tag_pass_nonempty(d, "h3"@);
    lemma_tag_pass_nonempty(d, "h4"@);
    lemma_tag_pass_nonempty(d, "h5"@);
    lemma_tag_pass_nonempty(d, "h6"@);
    lemma_tag_pass_nonempty(d, "span"@);
    lemma_tag_pass_nonempty(d, "p"@);
    lemma_concat_nonempty(t1, t2);
    lemma_concat_nonempty(t1 + t2, t3);
    lemma_concat_nonempty(t1 + t2 + t3, t4);
    lemma_concat_nonempty(t1 + t2 + t3 + t4, t5);
    lemma_concat_nonempty(t1 + t2 + t3 + t4 + t5, t6);
    lemma_concat_nonempty(t1 + t2 + t3 + t4 + t5 + t6, t7);
    lemma_concat_nonempty(t1 + t2 + t3 + t4 + t5 + t6 + t7, t8);
    lemma_walk_texts_bounded(d);
    assert(all_nonempty(spec_walk_texts(d)));
    lemma_concat_nonempty(spec_tag_texts(d), spec_walk_texts(d));
}

/// Whether the image pass emits for this node: an element tagged `img`
/// carrying a `src` attribute.
pub open spec fn is_img_with_src(n: NodeView) -> bool {
    crate::dom::is_elem(n) && crate::dom::tag_of(n) == "img"@ && crate::dom::attr_of(n, "src"@)
        is Some
}

/// Number of image-pass emitters in the subtree rooted at `i`.
pub open spec fn count_imgs(d: Seq<NodeView>, i: int) -> nat
    decreases d.len() - i, 1int, 0int,
{
    if 0 <= i < d.len() {
        (if is_img_with_src(d[i]) {
            1nat
        } else {
            0nat
        }) + count_imgs_kids(d, d[i].children, i, 0)
    } else {
        0
    }
}

pub open spec fn count_imgs_kids(d: Seq<NodeView>, kids: Seq<usize>, parent: int, k: int) -> nat
    decreases d.len() - parent, 0int, kids.len() - k,
{
    if 0 <= k < kids.len() && 0 <= parent < d.len() {
        (if parent < kids[k] < d.len() {
            count_imgs(d, kids[k] as int)
        } else {
            0
        }) + count_imgs_kids(d, kids, parent, k + 1)
    } else {
        0
    }
}

/// The image pass never drops an element: it emits exactly one string for
/// every `img` with a `src` attribute, whether or not resolution succeeds.
pub proof fn lemma_one_entry_per_img(d: Seq<NodeView>, base: Seq<char>)
    ensures
        spec_images(d, base).len() == count_imgs(d, 0),
{
    lemma_img_texts_count(d, 0, base);
}

proof fn lemma_img_texts_count(d: Seq<NodeView>, i: int, base: Seq<char>)
    ensures
        pass_texts(d, i, PassView::Img(base)).len() == count_imgs(d, i),
    decreases d.len() - i, 1int, 0int,
{
    if 0 <= i < d.len() {
        lemma_img_kids_count(d, d[i].children, i, 0, base);
        assert(pass_own(d, i, PassView::Img(base)).len() == if is_img_with_src(d[i]) {
            1nat
        } else {
            0nat
        });
    }
}

proof fn lemma_img_kids_count(d: Seq<NodeView>, kids: Seq<usize>, parent: int, k: int, base: Seq<char>)
    ensures
        pass_kids(d, kids, parent, k, PassView::Img(base)).len() == count_imgs_kids(
            d,
            kids,
            parent,
            k,
        ),
    decreases d.len() - parent, 0int, kids.len() - k,
{
    if 0 <= k < kids.len() && 0 <= parent < d.len() {
        lemma_img_kids_count(d, kids, parent, k + 1, base);
        if parent < kids[k] < d.len() {
            lemma_img_texts_count(d, kids[k] as int, base);
        }
    }
}

} // verus!
