use md_image_cache::mapping::{UrlMap, UrlSet};
use md_image_cache::pattern::{collect_urls, find_matches, replace_urls, str_chars};

#[test]
fn collect_single_construct() {
    let mut set = UrlSet::new();
    collect_urls("before ![alt](http://x/a.png) after", &mut set);
    assert_eq!(set.len(), 1);
    assert!(set.contains(&"http://x/a.png".to_string()));
}

#[test]
fn collect_url_stops_at_whitespace() {
    let mut set = UrlSet::new();
    collect_urls("![alt](http://x/a.png \"title\")", &mut set);
    assert_eq!(set.len(), 1);
    assert!(set.contains(&"http://x/a.png".to_string()));
}

#[test]
fn collect_multiple_constructs() {
    let mut set = UrlSet::new();
    collect_urls("![a](http://one.example/a) text ![b](http://y)", &mut set);
    assert_eq!(set.len(), 2);
    assert!(set.contains(&"http://one.example/a".to_string()));
    assert!(set.contains(&"http://y".to_string()));
}

#[test]
fn collect_deduplicates_across_documents() {
    let mut set = UrlSet::new();
    collect_urls("![a](http://x/a.png)", &mut set);
    collect_urls("other doc ![b](http://x/a.png)", &mut set);
    assert_eq!(set.len(), 1);
}

#[test]
fn collect_ignores_non_http() {
    let mut set = UrlSet::new();
    collect_urls("![a](ftp://elsewhere/f.png)", &mut set);
    assert_eq!(set.len(), 0);
}

#[test]
fn scan_is_leftmost_first() {
    // The failed candidate `](ftp...` is absorbed into the alt text of the
    // one match, whose URL is the later http token.
    let text = "![a](ftp://x) ![b](http://y)";
    let t = str_chars(text);
    let ms = find_matches(&t);
    assert_eq!(ms.len(), 1);
    assert_eq!(ms[0].start, 0);
    let url: String = t[ms[0].url_start..ms[0].url_end].iter().collect();
    assert_eq!(url, "http://y");
    assert_eq!(ms[0].end, text.chars().count());
}

#[test]
fn scan_records_spans() {
    let text = "xx![alt](http://x/a.png \"title\")yy";
    let t = str_chars(text);
    let ms = find_matches(&t);
    assert_eq!(ms.len(), 1);
    assert_eq!(ms[0].start, 2);
    assert_eq!(ms[0].url_start, 9);
    assert_eq!(ms[0].url_end, 23);
    assert_eq!(ms[0].end, 32);
}

#[test]
fn rewrite_preserves_span() {
    let mut mapping = UrlMap::new();
    mapping.insert("http://x/a.png".to_string(), "/images/h.png".to_string());
    let out = replace_urls("![alt](http://x/a.png \"title\")", &mapping);
    assert_eq!(out, "![alt](/images/h.png \"title\")");
}

#[test]
fn rewrite_unresolved_left_unchanged() {
    let mapping = UrlMap::new();
    let text = "pre ![alt](http://x/a.png) post";
    let out = replace_urls(text, &mapping);
    assert_eq!(out, text);
}

#[test]
fn rewrite_mixed_resolution() {
    let mut mapping = UrlMap::new();
    mapping.insert("http://one.example/a".to_string(), "/img/one".to_string());
    let out = replace_urls(
        "![a](http://one.example/a) and ![b](http://y \"t\")",
        &mapping,
    );
    assert_eq!(out, "![a](/img/one) and ![b](http://y \"t\")");
}

#[test]
fn rewrite_same_url_same_link_everywhere() {
    let mut mapping = UrlMap::new();
    mapping.insert("http://x/a.png".to_string(), "/images/h.png".to_string());
    let one = replace_urls("![a](http://x/a.png)", &mapping);
    let two = replace_urls("say ![b](http://x/a.png) twice ![c](http://x/a.png)", &mapping);
    assert_eq!(one, "![a](/images/h.png)");
    assert_eq!(two, "say ![b](/images/h.png) twice ![c](/images/h.png)");
}

#[test]
fn url_map_lookup() {
    let mut mapping = UrlMap::new();
    assert_eq!(mapping.len(), 0);
    mapping.insert("http://y".to_string(), "/img/y".to_string());
    assert_eq!(mapping.len(), 1);
    assert_eq!(mapping.get(&"http://y".to_string()), Some(&"/img/y".to_string()));
    assert_eq!(mapping.get(&"http://z".to_string()), None);
}

#[test]
fn alt_text_cannot_cross_newline() {
    let mut set = UrlSet::new();
    collect_urls("![a\nb](http://x/a.png)", &mut set);
    assert_eq!(set.len(), 0);
}

#[test]
fn whitespace_before_closing_paren_is_allowed() {
    let mut set = UrlSet::new();
    collect_urls("![a](http://y \n)", &mut set);
    assert_eq!(set.len(), 1);
    assert!(set.contains(&"http://y".to_string()));

    let mut mapping = UrlMap::new();
    mapping.insert("http://y".to_string(), "L".to_string());
    assert_eq!(replace_urls("![a](http://y \n)", &mapping), "![a](L \n)");
}

#[test]
fn newline_after_trailing_text_blocks_the_match() {
    let mut set = UrlSet::new();
    collect_urls("![a](http://y \nz\n)", &mut set);
    assert_eq!(set.len(), 0);
}

#[test]
fn unicode_text_around_construct() {
    let mut mapping = UrlMap::new();
    mapping.insert("http://x/a.png".to_string(), "/images/h.png".to_string());
    let out = replace_urls("héllo ![ä](http://x/a.png) — done ✓", &mapping);
    assert_eq!(out, "héllo ![ä](/images/h.png) — done ✓");
}
