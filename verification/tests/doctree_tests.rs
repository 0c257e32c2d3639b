//! Doctree scan, demotion and ordering tests.

use docket::doctree::{Bale, DoctreeItem, Page, SourceDir, SourceEntry, SourceFile};
use docket::error::DocketError;

fn md(path: &str, text: &str) -> SourceEntry {
    SourceEntry::File(SourceFile { path: path.to_owned(), content: Some(text.to_owned()) })
}

fn plain(path: &str) -> SourceEntry {
    SourceEntry::File(SourceFile { path: path.to_owned(), content: None })
}

fn dir(path: &str, entries: Vec<SourceEntry>) -> SourceDir {
    SourceDir { path: path.to_owned(), entries }
}

#[test]
fn page_from_parts_takes_title_from_first_heading() {
    let page = Page::from_parts("foo/bar.md", "# Down the Rabbit Hole\n\nsome text\n");
    assert_eq!("Down the Rabbit Hole", page.title());
    assert_eq!("bar", page.slug());
}

#[test]
fn page_from_parts_falls_back_to_stem() {
    let page = Page::from_parts("foo/10-bar.md", "plain text only");
    assert_eq!("10-bar", page.title());
    assert_eq!("bar", page.slug());
}

#[test]
fn page_open_fails_without_content() {
    let file = SourceFile { path: "a/b.md".to_owned(), content: None };
    match Page::open(&file) {
        Err(DocketError::Io(p)) => assert_eq!("a/b.md", p),
        _ => panic!("expected an error naming the unread file"),
    }
}

#[test]
fn scan_classifies_and_titles_from_index() {
    let d = dir(
        "docs/guide",
        vec![
            md("docs/guide/index.md", "# The Guide\n\nwelcome\n"),
            md("docs/guide/01-intro.md", "# Intro\n"),
            plain("docs/guide/style.css"),
            md("docs/guide/footer.md", "*bye*"),
        ],
    );
    let bale = Bale::new(d).unwrap();
    let fp = bale.frontispiece();
    assert_eq!("The Guide", fp.title());
    assert_eq!("guide", fp.slug());
    assert!(fp.index_page().is_some());
    // The footer is rendered to HTML once, at scan time.
    assert_eq!(Some("<p><em>bye</em></p>\n"), fp.footer().map(|s| s.as_str()));
}

#[test]
fn scan_titles_from_directory_name_without_index() {
    let d = dir("docs/10-My Topic", vec![md("docs/10-My Topic/a.md", "# A\n")]);
    let bale = Bale::new(d).unwrap();
    assert_eq!("My Topic", bale.frontispiece().title());
    assert!(bale.frontispiece().index_page().is_none());
}

#[test]
fn scan_fails_on_unread_footer() {
    let d = dir("docs", vec![plain("docs/footer.md")]);
    match Bale::new(d) {
        Err(DocketError::Io(p)) => assert_eq!("docs/footer.md", p),
        _ => panic!("expected the unread footer to fail the scan"),
    }
}

#[test]
fn break_open_demotes_directory_of_plain_files() {
    let d = dir(
        "docs",
        vec![
            md("docs/index.md", "# Site\n"),
            SourceEntry::Dir(dir("docs/images", vec![plain("docs/images/a.png"), plain("docs/images/b.png")])),
        ],
    );
    let bale = Bale::new(d).unwrap();
    let (_fp, assets, items) = bale.break_open().unwrap();
    assert_eq!(0, items.len());
    assert_eq!(1, assets.len());
    match &assets[0] {
        docket::asset::Asset::Disk(p) => assert_eq!("docs/images", p),
        _ => panic!("expected the demoted directory as one on-disk asset"),
    }
}

#[test]
fn break_open_keeps_directory_with_markdown() {
    let d = dir(
        "docs",
        vec![SourceEntry::Dir(
            dir("docs/topics", vec![md("docs/topics/a.md", "# A\n"), plain("docs/topics/pic.png")]),
        )],
    );
    let bale = Bale::new(d).unwrap();
    let (_fp, assets, items) = bale.break_open().unwrap();
    assert_eq!(0, assets.len());
    assert_eq!(1, items.len());
    assert!(matches!(items[0], DoctreeItem::Bale(_)));
}

#[test]
fn break_open_orders_by_numeric_prefix_and_excludes_index() {
    let d = dir(
        "docs",
        vec![
            md("docs/10-intro.md", "# Ten\n"),
            md("docs/2-setup.md", "# Two\n"),
            md("docs/index.md", "# Home\n"),
        ],
    );
    let bale = Bale::new(d).unwrap();
    let (fp, _assets, items) = bale.break_open().unwrap();
    assert!(fp.index_page().is_some());
    assert_eq!(2, items.len());
    let slugs: Vec<&str> = items
        .iter()
        .map(|i| match i {
            DoctreeItem::Page(p) => p.slug().as_str(),
            DoctreeItem::Bale(b) => b.frontispiece().slug().as_str(),
        })
        .collect();
    assert_eq!(vec!["setup", "intro"], slugs);
}

#[test]
fn break_open_fails_on_first_unread_page() {
    let d = dir(
        "docs",
        vec![md("docs/a.md", "# A\n"), plain("docs/b.md"), plain("docs/c.md")],
    );
    let bale = Bale::new(d).unwrap();
    match bale.break_open() {
        Err(DocketError::Io(p)) => assert_eq!("docs/b.md", p),
        _ => panic!("expected the first unread page to fail the break"),
    }
}

#[test]
fn readme_serves_as_index() {
    let d = dir("docs/topics", vec![md("docs/topics/README.md", "# Topics\n")]);
    let bale = Bale::new(d).unwrap();
    assert_eq!("Topics", bale.frontispiece().title());
    assert!(bale.frontispiece().index_page().is_some());
}

#[test]
fn markdown_extensions_are_case_insensitive() {
    let d = dir(
        "docs",
        vec![md("docs/a.MD", "# A\n"), md("docs/b.MarkDown", "# B\n"), md("docs/c.mdown", "# C\n"), plain("docs/d.txt")],
    );
    let bale = Bale::new(d).unwrap();
    let (_fp, assets, items) = bale.break_open().unwrap();
    assert_eq!(3, items.len());
    assert_eq!(1, assets.len());
}

// -----------------------------------------------------------------------
// Search terms gathered from a page, as the embedding binary builds them.
// -----------------------------------------------------------------------

use std::collections::HashMap;

use docket::search::TermFrequenciesBuilder;
use docket::toc::TocElement;

/// The relative term frequencies of a page: every term occurrence in its
/// content walk (headings included), weighted by the total.
fn search_index(page: &Page) -> HashMap<String, f64> {
    let mut builder = TermFrequenciesBuilder::new();
    for element in page.content().walk_elements() {
        match element {
            TocElement::Html(html) => builder.add_terms(html),
            TocElement::Node(node) => builder.add_terms(&node.heading.contents),
            TocElement::TocReference => (),
        }
    }
    let occurrences = builder.occurrences();
    let total = occurrences.len() as f64;
    let mut counts: HashMap<String, u64> = HashMap::new();
    for term in occurrences {
        *counts.entry(term.clone()).or_default() += 1;
    }
    counts.into_iter().map(|(term, count)| (term, count as f64 / total)).collect()
}

#[test]
fn page_has_search_terms() {
    let page = Page::from_parts("foo/bar.md", "Some sample text in some text");

    let index = search_index(&page);
    assert_ne!(0, index.len());
    let some_fq = index.get("some").cloned().unwrap_or_default();
    let sample_fq = index.get("sample").cloned().unwrap_or_default();
    let text_fq = index.get("text").cloned().unwrap_or_default();
    assert_eq!(some_fq, text_fq);
    assert!(some_fq > sample_fq);
}

#[test]
fn index_of_example_markdown() {
    let page = Page::from_parts(
        "foo/bar.md",
        r###"

# Down the Rabbit Hole

Either the well was very deep, or she fell very slowly, for she had
plenty of time as she went down to look about her, and to wonder what
was going to happen next. First, she tried to look down and make out
what she was coming to, but it was too dark to see anything; then she
looked at the sides of the well and noticed that they were filled with
cupboards and book-shelves: here and there she saw maps and pictures
hung upon pegs. She took down a jar from one of the shelves as she
passed; it was labelled "ORANGE MARMALADE," but to her disappointment it
was empty; she did not like to drop the jar for fear of killing
somebody underneath, so managed to put it into one of the cupboards as
she fell past it.

"Well!" thought Alice to herself. "After such a fall as this, I shall
think nothing of tumbling down stairs! How brave they'll all think me at
home! Why, I wouldn't say anything about it, even if I fell off the top
of the house!" (Which was very likely true.)

### Going Down?

Down, down, down. Would the fall _never_ come to an end? "I wonder how
many miles I've fallen by this time?" she said aloud. "I must be getting
somewhere near the centre of the earth. Let me see: that would be four
thousand miles down. I think--" (for, you see, Alice had learnt several
things of this sort in her lessons in the schoolroom, and though this
was not a _very_ good opportunity for showing off her knowledge, as
there was no one to listen to her, still it was good practice to say it
over) "--yes, that's about the right distance--but then I wonder what
Latitude or Longitude I've got to?" (Alice had no idea what Latitude
was, or Longitude either, but thought they were nice grand words to
say.)

        "###,
    );

    assert_eq!("Down the Rabbit Hole", page.title());

    // Check some of the relative frequencies of terms.
    let index = search_index(&page);
    assert_ne!(0, index.len());
    let rabbit_fq = index.get("rabbit").cloned().unwrap_or_default();
    assert!(rabbit_fq > 0.0);
    let well_fq = index.get("well").cloned().unwrap_or_default();
    assert!(well_fq > rabbit_fq);
    assert_eq!(index.get("distance").cloned().unwrap_or_default(), rabbit_fq);
    assert!(index.get("down").cloned().unwrap_or_default() > well_fq);

    // Check terms are downcased.
    assert_ne!(None, index.get("orange"));
    assert_eq!(None, index.get("MARMALADE"));

    // Check there is no whitespace or other junk symbols in the index.
    assert_eq!(None, index.get(""));
    assert_eq!(None, index.get("!"));
    assert_eq!(None, index.get("-"));
    assert_eq!(None, index.get(" "));
    assert_eq!(None, index.get("\t"));
    assert_eq!(None, index.get("("));
}
