use brainwiki::markdown::parse_markdown;
use brainwiki::page::Page;

#[test]
fn mod_simple() {
    let (tags, _rendered, _title) = parse_markdown(
        r#"
Foo bar #X.
#foo
#BAR. #bAz
#CięŻarkiewicz #FOO;

* #list

    "#,
    );

    assert_eq!(tags, ["bar", "baz", "ciężarkiewicz", "foo", "list", "x"]);
}

#[test]
fn skip_code() {
    let (tags, _rendered, _title) = parse_markdown(
        r#"
Foo bar #X.

    #foo
    #BAR. #bAz;

#CięŻarkiewicz #FOO
    "#,
    );

    assert_eq!(tags, ["ciężarkiewicz", "foo", "x"]);
}

#[test]
fn inline_code_is_skipped() {
    let (tags, _rendered, _title) = parse_markdown("a `#code` span and #real");
    assert_eq!(tags, ["real"]);
}

#[test]
fn titles_from_heading_with_fallbacks() {
    let (_, _, title) = parse_markdown("# My Title \n\nbody #a");
    assert_eq!(title, "My Title");

    // no heading: the first portion of the text stands in
    let (_, _, title) = parse_markdown("just some text #a");
    assert_eq!(title, "just some text #a");

    let page = Page::from_markdown("# My Title \n\nbody #a".to_string());
    assert_eq!(page.title, "My Title");
    assert_eq!(page.tags, ["a"]);
    assert_eq!(page.md, "# My Title \n\nbody #a");

    // empty document: tags joined with a slash (nothing here)
    let page = Page::from_markdown("".to_string());
    assert_eq!(page.title, "");
}

#[test]
fn rendering_is_real_markdown() {
    let (_, html, _) = parse_markdown("# Heading");
    assert!(html.contains("<h1>"));
    let page = Page::from_markdown("*em* #t".to_string());
    assert!(page.html.contains("<em>em</em>"));
    assert_ne!(page.html, page.md);
}

#[test]
fn tags_are_lowercased_sorted_and_deduplicated() {
    let (tags, _, _) = parse_markdown("#Zebra #apple #ZEBRA #Apple #m_n");
    assert_eq!(tags, ["apple", "m_n", "zebra"]);
}

#[test]
fn only_the_first_heading_titles_the_page() {
    let (_, _, title) = parse_markdown("# First\n\ntext\n\n# Second\n");
    assert_eq!(title, "First");
}

#[test]
fn empty_heading_falls_back() {
    let (_, _, title) = parse_markdown("#\n\nbody text\n");
    // "#" alone is a heading with no text: the fallback portion of
    // the text stands in
    assert_eq!(title, "body text");
}
