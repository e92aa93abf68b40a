use product_extractor::prompt::create_chatgpt_prompt;

fn expected_prompt(url: &str, text_sample: &str, image_sample: &str) -> String {
    format!(
        r#"
You will help me find product information from this product website. From the provided data and website url extract the relevant values into the JSON schema. 
- Return one product
- Return the most likely product
- YOU ARE ONLY ALLOWED TO RESPOND USING JSON
- Return a short and precise name
- Give a description of the product using fewer than 10 words
- Return Unknown if there is not sufficient information
- Use an end token after writing JSON

- Schema 
    {{
        "name": "productName",
        "price": "productPrice",
        "description": "productDescription"
        "image_url": "productImage_url"
    }}

- Website
    {url}

- Data
    {text_sample} 

    {image_sample}
"#
    )
}

#[test]
fn prompt_carries_url_texts_and_images() {
    let texts = vec!["alpha beta".to_string(), "gamma".to_string()];
    let images = vec!["https://x.example/i.png".to_string()];
    let p = create_chatgpt_prompt("https://x.example", &texts, &images, 600, 10);
    assert_eq!(
        p,
        expected_prompt("https://x.example", "alpha beta gamma", "https://x.example/i.png")
    );
}

#[test]
fn word_sample_is_capped() {
    let texts = vec!["one two three four".to_string()];
    let images: Vec<String> = Vec::new();
    let p = create_chatgpt_prompt("https://x.example", &texts, &images, 2, 10);
    assert_eq!(p, expected_prompt("https://x.example", "one two", ""));
}

#[test]
fn image_sample_is_capped_and_joined_with_line_breaks() {
    let texts: Vec<String> = Vec::new();
    let images = vec![
        "https://x.example/1.png".to_string(),
        "https://x.example/2.png".to_string(),
        "https://x.example/3.png".to_string(),
    ];
    let p = create_chatgpt_prompt("https://x.example", &texts, &images, 600, 2);
    assert_eq!(
        p,
        expected_prompt(
            "https://x.example",
            "",
            "https://x.example/1.png\nhttps://x.example/2.png"
        )
    );
}

#[test]
fn words_are_split_on_any_white_space() {
    let texts = vec!["  a\tb\nc  ".to_string(), "d".to_string()];
    let images: Vec<String> = Vec::new();
    let p = create_chatgpt_prompt("https://x.example", &texts, &images, 600, 10);
    assert_eq!(p, expected_prompt("https://x.example", "a b c d", ""));
}
