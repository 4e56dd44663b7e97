use wikitools::escape::{escape_dsl, is_non_article, unquote};

#[test]
fn test_escape_dsl_parens() {
    assert_eq!(escape_dsl("Music (2021)"), "Music \\(2021\\)");
    assert_eq!(escape_dsl("C#"), "C\\#");
    assert_eq!(escape_dsl("A < B"), "A \\< B");
    assert_eq!(escape_dsl("x ~ y"), "x \\~ y");
    assert_eq!(escape_dsl("x^2"), "x\\^2");
    assert_eq!(escape_dsl("path\\to"), "path\\\\to");
    assert_eq!(escape_dsl("no escape"), "no escape");
    assert_eq!(escape_dsl("音乐"), "音乐");
}

#[test]
fn test_is_non_article() {
    assert!(is_non_article("Category:Music"));
    assert!(is_non_article("Template:Infobox"));
    assert!(is_non_article("Wikipedia:About"));
    assert!(is_non_article("Help:Contents"));
    assert!(is_non_article("Module:Math"));
    assert!(is_non_article("User:Test"));
    assert!(!is_non_article("Music"));
    assert!(!is_non_article("Doraemon: Story"));
    assert!(!is_non_article("Star Wars: Episode IV"));
}

#[test]
fn test_unquote() {
    assert_eq!(unquote("'hello'"), "hello");
    assert_eq!(unquote("'it\\'s'"), "it's");
    assert_eq!(unquote("'back\\\\slash'"), "back\\slash");
    assert_eq!(unquote("'quote\\\"test\\\"'"), "quote\"test\"");
    assert_eq!(unquote("'new\\nline'"), "new\nline");
}

#[test]
fn escape_dsl_every_markup_character() {
    assert_eq!(escape_dsl("\\(){}[]#@<>~^"), "\\\\\\(\\)\\{\\}\\[\\]\\#\\@\\<\\>\\~\\^");
    assert_eq!(escape_dsl("&'\"-_,./:!?*+=|$%;"), "&'\"-_,./:!?*+=|$%;");
    assert_eq!(escape_dsl(""), "");
}

#[test]
fn escape_dsl_reads_back_as_literal_text() {
    // A DSL reader drops each backslash and keeps the character after it.
    let title = "C# (a) {b} [c] <d> x~y^2 \\ @";
    let escaped = escape_dsl(title);
    let mut read = String::new();
    let mut chars = escaped.chars();
    while let Some(c) = chars.next() {
        if c == '\\' {
            read.push(chars.next().unwrap());
        } else {
            read.push(c);
        }
    }
    assert_eq!(read, title);
}

#[test]
fn unquote_trims_and_keeps_unquoted_text() {
    assert_eq!(unquote("  plain text \t\n"), "plain text");
    assert_eq!(unquote("\u{3000}'x'\u{a0}"), "x");
    assert_eq!(unquote("'unterminated"), "'unterminated");
    assert_eq!(unquote(""), "");
    assert_eq!(unquote("''"), "");
    assert_eq!(unquote("   "), "");
}

#[test]
fn unquote_escapes() {
    assert_eq!(unquote("'a''b'"), "a'b");
    assert_eq!(unquote("'tab\\there'"), "tab\there");
    assert_eq!(unquote("'cr\\r'"), "cr\r");
    assert_eq!(unquote("'keep \\x as is'"), "keep \\x as is");
    assert_eq!(unquote("'trailing \\'"), "trailing \\");
    assert_eq!(unquote("'音\\n乐'"), "音\n乐");
    assert_eq!(unquote("'  inner spaces  '"), "  inner spaces  ");
}

#[test]
fn is_non_article_needs_the_colon_at_the_start() {
    assert!(is_non_article("WP:Notability"));
    assert!(is_non_article("Talk:Music"));
    assert!(is_non_article("MediaWiki:Common.css"));
    assert!(!is_non_article("Category"));
    assert!(!is_non_article("Categories:Music"));
    assert!(!is_non_article("My Category:Music"));
    assert!(!is_non_article("category:Music"));
    assert!(!is_non_article(""));
}
