use wikisearch::links::{begins, excluded, extract_links, find_from, has_at, is_article_url};

fn texts(links: Vec<Vec<u8>>) -> Vec<String> {
    links.into_iter().map(|l| String::from_utf8(l).unwrap()).collect()
}

#[test]
fn links_of_the_content_region_in_page_order() {
    let html = "<a href=\"/wiki/Before\">x</a><div id=\"mw-content-text\" class=\"c\">\
        <a href=\"/wiki/Rust\">Rust</a> and <a href=\"/wiki/Verus_(tool)\" title=\"t\">v</a>\
        <a href=\"https://example.org/\">out</a></div>";
    assert_eq!(
        texts(extract_links(html.as_bytes())),
        vec![
            "https://en.wikipedia.org/wiki/Rust".to_string(),
            "https://en.wikipedia.org/wiki/Verus_(tool)".to_string(),
        ]
    );
}

#[test]
fn pages_that_are_no_articles_are_left_out() {
    let mut html = String::from("<div id=\"mw-content-text\">");
    for name in [
        "File:a.png", "Category:B", "Special:C", "Talk:D", "Wikipedia:E", "Template:F", "Portal:G",
        "Help:H", "Files", "Helper", "talk:lower",
    ] {
        html.push_str(&format!("<a href=\"/wiki/{}\">l</a>", name));
    }
    assert_eq!(
        texts(extract_links(html.as_bytes())),
        vec![
            "https://en.wikipedia.org/wiki/Files".to_string(),
            "https://en.wikipedia.org/wiki/Helper".to_string(),
            "https://en.wikipedia.org/wiki/talk:lower".to_string(),
        ]
    );
}

#[test]
fn page_without_content_region_has_no_links() {
    let html = "<html><a href=\"/wiki/Rust\">Rust</a></html>";
    assert!(extract_links(html.as_bytes()).is_empty());
    assert!(extract_links(b"").is_empty());
}

#[test]
fn link_without_closing_quote_ends_the_list() {
    let html = "<div id=\"mw-content-text\"><a href=\"/wiki/One\">1</a><a href=\"/wiki/Two";
    assert_eq!(texts(extract_links(html.as_bytes())), vec!["https://en.wikipedia.org/wiki/One".to_string()]);
}

#[test]
fn empty_target_is_the_bare_prefix() {
    let html = "<div id=\"mw-content-text\"<a href=\"/wiki/\">";
    assert_eq!(texts(extract_links(html.as_bytes())), vec!["https://en.wikipedia.org/wiki/".to_string()]);
}

#[test]
fn non_ascii_targets_are_kept_byte_for_byte() {
    let html = "<div id=\"mw-content-text\"><a href=\"/wiki/Caf\u{e9}\">c</a>";
    assert_eq!(texts(extract_links(html.as_bytes())), vec!["https://en.wikipedia.org/wiki/Caf\u{e9}".to_string()]);
}

#[test]
fn find_from_gives_the_first_match() {
    assert_eq!(find_from(b"abcabc", b"bc", 0), Some(1));
    assert_eq!(find_from(b"abcabc", b"bc", 2), Some(4));
    assert_eq!(find_from(b"abcabc", b"bc", 5), None);
    assert_eq!(find_from(b"abc", b"abcd", 0), None);
    assert_eq!(find_from(b"abc", b"", 3), Some(3));
    assert_eq!(find_from(b"abc", b"", 4), None);
    assert_eq!(find_from(b"abc", b"x", 0), None);
}

#[test]
fn has_at_compares_in_place() {
    assert!(has_at(b"hello", b"ell", 1));
    assert!(!has_at(b"hello", b"ell", 0));
    assert!(!has_at(b"hello", b"lo!", 3));
    assert!(has_at(b"hello", b"", 5));
    assert!(!has_at(b"hello", b"", 6));
}

#[test]
fn begins_looks_only_inside_the_range() {
    assert!(begins(b"xxFile:yy", 2, 9, b"File:"));
    assert!(!begins(b"xxFile:yy", 2, 6, b"File:"));
    assert!(excluded(b"xxHelp:yy", 2, 9));
    assert!(!excluded(b"xxHelp:yy", 3, 9));
}

#[test]
fn article_addresses_have_the_prefix() {
    assert!(is_article_url("https://en.wikipedia.org/wiki/Rust"));
    assert!(is_article_url("https://en.wikipedia.org/wiki/"));
    assert!(!is_article_url("https://de.wikipedia.org/wiki/Rust"));
    assert!(!is_article_url("https://en.wikipedia.org/wiki"));
    assert!(!is_article_url(""));
}
