//! Tree-of-contents tests.

use docket::toc::{Toc, TocElement};
use docket::utils::slugify;

fn parse_toc(s: &str) -> Vec<TocElement> {
    Toc::new(s).into_inner()
}

/// Checks one heading against its expected level, inline text and slug.
fn check_heading<'a>(e: &'a TocElement, level: u8, contents: &str) -> Vec<&'a TocElement> {
    match e {
        TocElement::Node(node) => {
            assert_eq!(level, node.heading.level);
            assert_eq!(contents, node.heading.contents);
            assert_eq!(slugify(contents), node.heading.slug);
            node.contents.iter().collect()
        },
        _ => panic!("expected a heading node"),
    }
}

#[test]
fn parse_example_doc_toc() {
    let toc = parse_toc(
        "
# Heading 1.1

para one

## Heading 2.1

para two

para three

### Heading 3.1

```code
block four
```

## Heading 2.2

<img src=example.com/png>

# Heading 1.2

> last bit",
    );

    assert_eq!(2, toc.len());
}

#[test]
fn parse_with_no_headings() {
    let doc = "hello world";
    let toc = parse_toc(doc);

    assert_eq!(1, toc.len());
    match &toc[0] {
        TocElement::Html(html) => assert_eq!("<p>hello world</p>\n", html),
        _ => panic!("expected a rendered block"),
    }
}

#[test]
fn parse_wit_no_headings() {
    let doc = "hello world";
    let toc = parse_toc(doc);

    assert_eq!(1, toc.len());
    match &toc[0] {
        TocElement::Html(html) => assert_eq!("<p>hello world</p>\n", html),
        _ => panic!("expected a rendered block"),
    }
}

#[test]
fn toc_parse_with_single_heading() {
    let doc = "# I am an H1";

    let toc = parse_toc(doc);

    assert_eq!(1, toc.len());
    let children = check_heading(&toc[0], 1, "I am an H1");
    assert_eq!(0, children.len());
}

#[test]
fn toc_parse_with_single_toc_reference() {
    let doc = "[TOC]";

    let toc = parse_toc(doc);

    assert_eq!(1, toc.len());
    assert!(matches!(toc[0], TocElement::TocReference));
}

#[test]
fn toc_parse_with_nested_headings() {
    let doc = r#"
# Heading 1.1

## Heading 2.1

### Heading 3.1

## Heading 2.2

# Heading 1.2
"#;

    let toc = parse_toc(doc);

    assert_eq!(2, toc.len());
    let first = check_heading(&toc[0], 1, "Heading 1.1");
    assert_eq!(2, first.len());
    let h21 = check_heading(first[0], 2, "Heading 2.1");
    assert_eq!(1, h21.len());
    let h31 = check_heading(h21[0], 3, "Heading 3.1");
    assert_eq!(0, h31.len());
    let h22 = check_heading(first[1], 2, "Heading 2.2");
    assert_eq!(0, h22.len());
    let second = check_heading(&toc[1], 1, "Heading 1.2");
    assert_eq!(0, second.len());
}

#[test]
fn toc_marker_mid_sentence_stays_literal() {
    let doc = "some [TOC] in a sentence";
    let toc = parse_toc(doc);

    assert_eq!(1, toc.len());
    match &toc[0] {
        TocElement::Html(html) => {
            assert!(html.contains("[TOC]"));
        },
        _ => panic!("expected the marker to render literally"),
    }
}

#[test]
fn toc_explicit_fragment_identifier_wins() {
    let doc = "# A Heading { #my-own-id }";
    let toc = parse_toc(doc);

    assert_eq!(1, toc.len());
    match &toc[0] {
        TocElement::Node(node) => {
            assert_eq!("my-own-id", node.heading.slug);
        },
        _ => panic!("expected a heading node"),
    }
}

#[test]
fn toc_primary_heading_finds_first_node() {
    let toc = Toc::new("intro text\n\n# First\n\n## Second\n");
    assert_eq!(Some("First"), toc.primary_heading().map(|s| s.as_str()));

    let toc = Toc::new("no headings here");
    assert!(toc.primary_heading().is_none());
}

#[test]
fn toc_nodes_and_walk() {
    let toc = Toc::new("# A\n\n## B\n\ntext\n\n# C\n");
    let nodes = toc.nodes();
    assert_eq!(2, nodes.len());
    assert_eq!("A", nodes[0].heading.contents);
    assert_eq!("C", nodes[1].heading.contents);
    let inner = nodes[0].nodes();
    assert_eq!(1, inner.len());
    assert_eq!("B", inner[0].heading.contents);

    // Pre-order: A, B, Html(text), C.
    let walk = toc.walk_elements();
    assert_eq!(4, walk.len());
    assert!(matches!(walk[0], TocElement::Node(_)));
    assert!(matches!(walk[1], TocElement::Node(_)));
    assert!(matches!(walk[2], TocElement::Html(_)));
    assert!(matches!(walk[3], TocElement::Node(_)));
}
