//! Assembling the product-information prompt from extracted text and images.

use vstd::prelude::*;

use crate::text::{spec_join, spec_words, split_words, views_of};

verus! {

/// The words of all texts, in order: each text split on white space.
pub open spec fn spec_all_words(ts: Seq<Seq<char>>) -> Seq<Seq<char>>
    decreases ts.len(),
{
    if ts.len() == 0 {
        Seq::<Seq<char>>::empty()
    } else {
        spec_words(ts[0]) + spec_all_words(ts.drop_first())
    }
}

/// At most the first `limit` elements.
pub open spec fn capped(ws: Seq<Seq<char>>, limit: int) -> Seq<Seq<char>> {
    ws.take(
        if limit <= ws.len() {
            limit
        } else {
            ws.len() as int
        },
    )
}

/// The prompt handed to the language model: a fixed instruction template
/// around the site URL, a sample of at most `mw` words of the extracted
/// texts, and a sample of at most `mi` image URLs.
pub open spec fn spec_prompt(
    url: Seq<char>,
    texts: Seq<Seq<char>>,
    images: Seq<Seq<char>>,
    mw: int,
    mi: int,
) -> Seq<char> {
    "\nYou will help me find product information from this product website. From the provided data and website url extract the relevant values into the JSON schema. \n- Return one product\n- Return the most likely product\n- YOU ARE ONLY ALLOWED TO RESPOND USING JSON\n- Return a short and precise name\n- Give a description of the product using fewer than 10 words\n- Return Unknown if there is not sufficient information\n- Use an end token after writing JSON\n\n- Schema \n    {\n        \"name\": \"productName\",\n        \"price\": \"productPrice\",\n        \"description\": \"productDescription\"\n        \"image_url\": \"productImage_url\"\n    }\n\n- Website\n    "@
        + url + "\n\n- Data\n    "@ + spec_join(capped(spec_all_words(texts), mw), " "@)
        + " \n\n    "@ + spec_join(capped(images, mi), "\n"@) + "\n"@
}

/// Collects the white-space-separated words of every text, in order.
fn collect_words(texts: &Vec<String>) -> (words: Vec<String>)
    ensures
        views_of(words@) == spec_all_words(views_of(texts@)),
{
    let ghost vs = views_of(texts@);
    let mut words: Vec<String> = Vec::new();
    let mut ti: usize = 0;
    proof {
        assert(views_of(words@) =~= Seq::<Seq<char>>::empty());
        assert(vs.skip(0) =~= vs);
        assert(Seq::<Seq<char>>::empty() + spec_all_words(vs) =~= spec_all_words(vs));
    }
    while ti < texts.len()
        invariant
            0 <= ti <= texts@.len(),
            vs == views_of(texts@),
            vs.len() == texts@.len(),
            views_of(words@) + spec_all_words(vs.skip(ti as int)) == spec_all_words(vs),
        decreases texts@.len() - ti,
    {
        let ghost rest = vs.skip(ti as int);
        proof {
            assert(rest[0] == vs[ti as int]);
            assert(vs[ti as int] == texts@[ti as int]@);
            assert(rest.drop_first() =~= vs.skip(ti as int + 1));
            assert(spec_all_words(rest) == spec_words(vs[ti as int]) + spec_all_words(
                vs.skip(ti as int + 1),
            ));
        }
        let ws = split_words(texts[ti].as_str());
        let ghost sw = spec_words(vs[ti as int]);
        let ghost base = views_of(words@);
        let mut wj: usize = 0;
        proof {
            assert(sw.take(0) =~= Seq::<Seq<char>>::empty());
            assert(base + Seq::<Seq<char>>::empty() =~= base);
        }
        while wj < ws.len()
            invariant
                0 <= wj <= ws@.len(),
                ws@.len() == sw.len(),
                forall|q: int| 0 <= q < ws@.len() ==> ws@[q]@ == sw[q],
                views_of(words@) == base + sw.take(wj as int),
            decreases ws@.len() - wj,
        {
            let ghost prevw = words@;
            let w = ws[wj].clone();
            let ghost wv = w@;
            words.push(w);
            proof {
                crate::text::lemma_views_push(prevw, words@, wv);
                assert(sw.take(wj as int + 1) =~= sw.take(wj as int).push(sw[wj as int]));
                assert((base + sw.take(wj as int)) + seq![sw[wj as int]] =~= base + (sw.take(
                    wj as int,
                ).push(sw[wj as int])));
            }
            wj = wj + 1;
        }
        proof {
            assert(sw.take(sw.len() as int) =~= sw);
            assert((base + sw) + spec_all_words(vs.skip(ti as int + 1)) =~= base + (sw
                + spec_all_words(vs.skip(ti as int + 1))));
        }
        ti = ti + 1;
    }
    proof {
        assert(vs.skip(vs.len() as int) =~= Seq::<Seq<char>>::empty());
        assert(views_of(words@) + Seq::<Seq<char>>::empty() =~= views_of(words@));
    }
    words
}

/// Builds the model prompt from the page URL, the extracted texts (sampled to
/// at most `max_words` white-space-separated words) and the extracted image
/// URLs (sampled to at most `max_images` entries).
pub fn create_chatgpt_prompt(
    url: &str,
    texts: &Vec<String>,
    images: &Vec<String>,
    max_words: usize,
    max_images: usize,
) -> (r: String)
    ensures
        r@ == spec_prompt(
            url@,
            views_of(texts@),
            views_of(images@),
            max_words as int,
            max_images as int,
        ),
{
    let words = collect_words(texts);
    let text_sample = join_prefix_words(&words, max_words);
    let image_sample = join_prefix_images(images, max_images);
    let mut p = String::new();
    p.append(
        "\nYou will help me find product information from this product website. From the provided data and website url extract the relevant values into the JSON schema. \n- Return one product\n- Return the most likely product\n- YOU ARE ONLY ALLOWED TO RESPOND USING JSON\n- Return a short and precise name\n- Give a description of the product using fewer than 10 words\n- Return Unknown if there is not sufficient information\n- Use an end token after writing JSON\n\n- Schema \n    {\n        \"name\": \"productName\",\n        \"price\": \"productPrice\",\n        \"description\": \"productDescription\"\n        \"image_url\": \"productImage_url\"\n    }\n\n- Website\n    ",
    );
    p.append(url);
    p.append("\n\n- Data\n    ");
    p.append(text_sample.as_str());
    p.append(" \n\n    ");
    p.append(image_sample.as_str());
    p.append("\n");
    p
}

/// The word sample: at most `limit` words joined with single spaces.
fn join_prefix_words(words: &Vec<String>, limit: usize) -> (r: String)
    ensures
        r@ == spec_join(capped(views_of(words@), limit as int), " "@),
{
    let r = crate::text::join_prefix(words, limit, " ");
    proof {
        let vs = views_of(words@);
        assert(capped(vs, limit as int) =~= vs.take(
            if limit <= words@.len() {
                limit as int
            } else {
                words@.len() as int
            },
        ));
    }
    r
}

/// The image sample: at most `limit` URLs joined with line breaks.
fn join_prefix_images(images: &Vec<String>, limit: usize) -> (r: String)
    ensures
        r@ == spec_join(capped(views_of(images@), limit as int), "\n"@),
{
    let r = crate::text::join_prefix(images, limit, "\n");
    proof {
        let vs = views_of(images@);
        assert(capped(vs, limit as int) =~= vs.take(
            if limit <= images@.len() {
                limit as int
            } else {
                images@.len() as int
            },
        ));
    }
    r
}

} // verus!
