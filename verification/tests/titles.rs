use std::io::Write;
use wikitools::error::WikiDictError;
use wikitools::titles::{
    extract_titles, find_after, parse_all_titles, parse_all_titles_inner, title_entry,
    titles_dump_filename, titles_dump_url, titles_from_xml, titles_listing_url, url_encode_title,
};

fn gzip(data: &[u8]) -> Vec<u8> {
    let mut gz = flate2::write::GzEncoder::new(Vec::new(), flate2::Compression::default());
    gz.write_all(data).unwrap();
    gz.finish().unwrap()
}

#[test]
fn test_parse_all_titles_basic() {
    // Build a minimal gzipped all-titles XML with 3 articles
    let xml = r#"<mediawiki xmlns="http://www.mediawiki.org/xml/export-0.11/" xsi:schemaLocation="http://www.mediawiki.org/xml/export-0.11/ http://www.mediawiki.org/xml/export-0.11.xsd" version="0.11" xml:lang="en">
  <siteinfo>
    <sitename>Wikipedia</sitename>
    <dbname>enwiki</dbname>
    <base>https://en.wikipedia.org/wiki/Main_Page</base>
  </siteinfo>
  <page>
    <title>Music</title>
    <ns>0</ns>
    <id>1</id>
  </page>
  <page>
    <title>Hello World</title>
    <ns>0</ns>
    <id>2</id>
  </page>
  <page>
    <title>C++</title>
    <ns>0</ns>
    <id>3</id>
  </page>
</mediawiki>"#;

    let compressed = gzip(xml.as_bytes());
    let entries = parse_all_titles(&compressed, "en", "wikipedia").unwrap();

    assert_eq!(entries.len(), 3);

    // Find Music entry
    let music = entries.iter().find(|(h, _)| h == "Music").unwrap();
    assert!(music.1.contains("https://en.wikipedia.org/wiki/Music"));

    // Find Hello World — space → underscore in URL
    let hello = entries.iter().find(|(h, _)| h == "Hello World").unwrap();
    assert!(hello.1.contains("Hello_World"));

    // C++ — special chars percent-encoded
    let cpp = entries.iter().find(|(h, _)| h == "C++").unwrap();
    assert!(cpp.1.contains("C%2B%2B"));
}

#[test]
fn test_parse_all_titles_wiktionary() {
    let xml = r#"<mediawiki xmlns="http://www.mediawiki.org/xml/export-0.11/">
  <page><title>word</title><ns>0</ns><id>1</id></page>
</mediawiki>"#;

    let compressed = gzip(xml.as_bytes());
    let entries = parse_all_titles(&compressed, "en", "wiktionary").unwrap();

    assert_eq!(entries.len(), 1);
    assert!(entries[0].1.contains("https://en.wiktionary.org/wiki/word"));
}

#[test]
fn test_title_url_encoding() {
    let entries = parse_all_titles_inner("en", "wikipedia", &["C# (programming language)"]);

    assert_eq!(entries.len(), 1);
    let (_headword, body) = &entries[0];
    // URL must contain percent-encoded space and #
    assert!(body.contains("C%23_(programming_language)"));
    // Headword is human-readable, DSL-escaped
    assert_eq!(entries[0].0, "C\\# \\(programming language\\)");
}

#[test]
fn parse_all_titles_sorts_and_dedups() {
    let xml = "<page><title>b</title></page><page><title>a</title></page>\
               <page><title>b</title></page><page><title>B</title></page>";
    let entries = parse_all_titles(&gzip(xml.as_bytes()), "en", "wikipedia").unwrap();
    let heads: Vec<&str> = entries.iter().map(|(h, _)| h.as_str()).collect();
    assert_eq!(heads, vec!["B", "a", "b"]);
    assert_eq!(entries[1].1, "<a href=\"https://en.wikipedia.org/wiki/a\">https://en.wikipedia.org/wiki/a</a>");
}

#[test]
fn parse_all_titles_rejects_bad_gzip() {
    let res = parse_all_titles(b"not a gzip stream", "en", "wikipedia");
    assert!(matches!(res, Err(WikiDictError::Io(_))));
}

#[test]
fn parse_all_titles_empty_dump() {
    let entries = parse_all_titles(&gzip(b""), "en", "wikipedia").unwrap();
    assert!(entries.is_empty());
}

#[test]
fn extract_titles_edge_cases() {
    // a page without a title, an empty title, a title after the page's end,
    // a page with no closing tag
    let xml = "<page><id>1</id></page><page><title></title></page>\
               <page></page><title>outside</title>\
               <page><title>Last</title>";
    assert_eq!(extract_titles(xml), vec!["Last".to_string()]);
    assert_eq!(extract_titles(""), Vec::<String>::new());
    assert_eq!(extract_titles("<page><title>音乐</title></page>"), vec!["音乐".to_string()]);
    // an unclosed title takes nothing
    assert_eq!(extract_titles("<page><title>open"), Vec::<String>::new());
}

#[test]
fn find_after_positions() {
    let h = b"ab<page>cd<page>";
    assert_eq!(find_after(h, 0, b"<page>"), Some(8));
    assert_eq!(find_after(h, 3, b"<page>"), Some(16));
    assert_eq!(find_after(h, 11, b"<page>"), None);
    assert_eq!(find_after(h, 16, b"<page>"), None);
    assert_eq!(find_after(b"ab", 0, b"abc"), None);
}

#[test]
fn url_encode_title_bytes() {
    assert_eq!(url_encode_title("C++"), "C%2B%2B");
    assert_eq!(url_encode_title("Hello World"), "Hello_World");
    assert_eq!(url_encode_title("a-z.A_Z~09$&'()*,;=:/@!"), "a-z.A_Z~09$&'()*,;=:/@!");
    assert_eq!(url_encode_title("音"), "%E9%9F%B3");
    assert_eq!(url_encode_title("50%?"), "50%25%3F");
}

#[test]
fn title_entry_link() {
    let (h, b) = title_entry("https://la.wiktionary.org/wiki/", "a b");
    assert_eq!(h, "a b");
    assert_eq!(b, "<a href=\"https://la.wiktionary.org/wiki/a_b\">https://la.wiktionary.org/wiki/a_b</a>");
}

#[test]
fn dump_locations() {
    assert_eq!(titles_listing_url("en", "wikipedia"), "https://dumps.wikimedia.org/enwikipedia/latest/");
    assert_eq!(titles_dump_filename("la", "wiktionary"), "lawiktionary-latest-all-titles-in-ns0.gz");
    assert_eq!(
        titles_dump_url("en", "wiki"),
        "https://dumps.wikimedia.org/enwiki/latest/enwiki-latest-all-titles-in-ns0.gz"
    );
}

#[test]
fn titles_from_xml_entries() {
    let entries = titles_from_xml("<page><title>Zed</title></page><page><title>C#</title></page>", "fr", "wikipedia");
    assert_eq!(entries.len(), 2);
    assert_eq!(entries[0].0, "C\\#");
    assert_eq!(entries[0].1, "<a href=\"https://fr.wikipedia.org/wiki/C%23\">https://fr.wikipedia.org/wiki/C%23</a>");
    assert_eq!(entries[1].0, "Zed");
}

#[test]
fn titles_from_contents_replaces_invalid_utf8() {
    let mut xml = b"<page><title>a".to_vec();
    xml.push(0xff);
    xml.extend_from_slice(b"b</title></page>");
    let entries = wikitools::titles::titles_from_contents(&xml, "en", "wikipedia");
    assert_eq!(entries.len(), 1);
    assert_eq!(entries[0].0, "a\u{fffd}b");
    assert!(entries[0].1.contains("a%EF%BF%BDb"));
}

#[test]
fn parse_all_titles_skips_non_article_namespaces() {
    let xml = "<page><title>Category:Music</title></page><page><title>Music</title></page>\
               <page><title>Template:Infobox</title></page><page><title>Star Wars: Episode IV</title></page>";
    let entries = parse_all_titles(&gzip(xml.as_bytes()), "en", "wikipedia").unwrap();
    let heads: Vec<&str> = entries.iter().map(|(h, _)| h.as_str()).collect();
    assert_eq!(heads, vec!["Music", "Star Wars: Episode IV"]);
}

#[test]
fn extract_titles_decodes_entities() {
    assert_eq!(extract_titles("<page><title>AT&amp;T</title></page>"), vec!["AT&T".to_string()]);
    assert_eq!(
        extract_titles("<page><title>&lt;a&gt; &quot;b&quot; &apos;c&apos; &#65;&#x42;&#X43;</title></page>"),
        vec!["<a> \"b\" 'c' ABC".to_string()]
    );
    // not references: kept as they are
    assert_eq!(
        extract_titles("<page><title>&nbsp; &#; &#xD800; &#12345678; & x</title></page>"),
        vec!["&nbsp; &#; &#xD800; &#12345678; & x".to_string()]
    );
    let entries = titles_from_xml("<page><title>AT&amp;T</title></page>", "en", "wikipedia");
    assert_eq!(entries[0].0, "AT&T");
    assert!(entries[0].1.contains("https://en.wikipedia.org/wiki/AT&T"));
}

#[test]
fn extract_titles_title_must_end_inside_its_page() {
    assert_eq!(
        extract_titles("<page><title>A</page><page><title>B</title></page>"),
        vec!["B".to_string()]
    );
}
