use wikitools::dsl::{dsl_entry, dsl_header};

#[test]
fn dsl_header_lines() {
    assert_eq!(
        dsl_header("wikipedia titles (en)", "English", "English"),
        "#NAME \"wikipedia titles (en)\"\n#INDEX_LANGUAGE \"English\"\n#CONTENTS_LANGUAGE \"English\"\n\n"
    );
}

#[test]
fn dsl_entry_card() {
    assert_eq!(dsl_entry("Music", "<<音乐>>"), "Music\n\t<<音乐>>\n");
    assert_eq!(dsl_entry("", ""), "\n\t\n");
}
