use product_extractor::extractor::{extract_text_and_images, ParseError};

#[test]
fn tag_pass_is_unconditional() {
    let html = "<h1>Widget</h1><div class=\"randomXYZ\">Widget</div>".to_string();
    let (texts, images) = extract_text_and_images(&html, "https://shop.example/").unwrap();
    // the h1 contributes regardless of any class heuristic; the div's class
    // matches no keyword, so the walk adds nothing
    assert_eq!(texts, vec!["Widget".to_string()]);
    assert!(images.is_empty());
}

#[test]
fn length_cap_excludes_large_containers() {
    let long_text: String = "a".repeat(80);
    let html = format!("<div class=\"product-container\">{}</div>", long_text);
    let (texts, _) = extract_text_and_images(&html, "https://shop.example/").unwrap();
    assert!(texts.is_empty());

    let short_text: String = "a".repeat(50);
    let html = format!("<div class=\"product-container\">{}</div>", short_text);
    let (texts, _) = extract_text_and_images(&html, "https://shop.example/").unwrap();
    assert_eq!(texts, vec![short_text]);
}

#[test]
fn relative_images_resolve_against_the_base() {
    let html = "<img src=\"../img/a.png\"><img src=\"https://cdn.example/a.png\">".to_string();
    let (_, images) = extract_text_and_images(&html, "https://shop.example/cat/").unwrap();
    assert_eq!(
        images,
        vec![
            "https://shop.example/img/a.png".to_string(),
            "https://cdn.example/a.png".to_string(),
        ]
    );
}

#[test]
fn unresolvable_src_is_still_emitted() {
    let html = "<img src=\"   \">".to_string();
    let (_, images) = extract_text_and_images(&html, "https://shop.example/cat/").unwrap();
    assert_eq!(images.len(), 1);
}

#[test]
fn extraction_is_deterministic() {
    let html = "<h1>Tea pot</h1><p>Fine china.</p><img src=\"a.png\">".to_string();
    let base = "https://shop.example/";
    let first = extract_text_and_images(&html, base).unwrap();
    let second = extract_text_and_images(&html, base).unwrap();
    assert_eq!(first, second);
}

#[test]
fn bad_base_url_is_the_only_error() {
    let html = "<p>x</p>".to_string();
    let r = extract_text_and_images(&html, "not a url");
    assert!(matches!(r, Err(ParseError::InvalidBaseUrl)));
}

#[test]
fn empty_document_yields_empty_lists() {
    let (texts, images) = extract_text_and_images(&"".to_string(), "https://a.example/").unwrap();
    assert!(texts.is_empty());
    assert!(images.is_empty());
}

#[test]
fn both_passes_may_collect_the_same_text() {
    // the h1 is collected by the tag pass and again by the class walk
    let html = "<h1 class=\"product\">Tea</h1>".to_string();
    let (texts, _) = extract_text_and_images(&html, "https://shop.example/").unwrap();
    assert_eq!(texts, vec!["Tea".to_string(), "Tea".to_string()]);
}

#[test]
fn tag_priority_orders_spans_before_paragraphs() {
    let html = "<p>Para</p><span>Span</span>".to_string();
    let (texts, _) = extract_text_and_images(&html, "https://shop.example/").unwrap();
    assert_eq!(texts, vec!["Span".to_string(), "Para".to_string()]);
}

#[test]
fn flattened_text_is_trimmed_and_empty_text_dropped() {
    let html = "<h1>  spaced out  </h1><h2>   </h2>".to_string();
    let (texts, _) = extract_text_and_images(&html, "https://shop.example/").unwrap();
    assert_eq!(texts, vec!["spaced out".to_string()]);
}

#[test]
fn nested_matching_elements_both_contribute() {
    let html =
        "<div class=\"item\"><span class=\"price\">9</span></div>".to_string();
    let (texts, _) = extract_text_and_images(&html, "https://shop.example/").unwrap();
    // the span's text from the tag pass, then the walk finds the item
    // container and the price span, outer before inner
    assert_eq!(
        texts,
        vec!["9".to_string(), "9".to_string(), "9".to_string()]
    );
}

#[test]
fn doctype_does_not_displace_the_root_element() {
    let html =
        "<!DOCTYPE html><html><body><div class=\"price\">9</div></body></html>".to_string();
    let (texts, _) = extract_text_and_images(&html, "https://shop.example/").unwrap();
    assert_eq!(texts, vec!["9".to_string()]);
}

#[test]
fn leading_comment_does_not_displace_the_root_element() {
    let html = "<!-- banner --><div class=\"item\">Tea pot</div>".to_string();
    let (texts, _) = extract_text_and_images(&html, "https://shop.example/").unwrap();
    assert_eq!(texts, vec!["Tea pot".to_string()]);
}

#[test]
fn length_cap_inclusion_holds_with_a_doctype() {
    let short_text: String = "a".repeat(50);
    let html = format!(
        "<!DOCTYPE html><html><body><div class=\"product-container\">{}</div></body></html>",
        short_text
    );
    let (texts, _) = extract_text_and_images(&html, "https://shop.example/").unwrap();
    assert_eq!(texts, vec![short_text]);
}
