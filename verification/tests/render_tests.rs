//! Render-plan tests, including the end-to-end walk.

use docket::asset::Asset;
use docket::docket::{title_from_components, Docket};
use docket::doctree::{SourceDir, SourceEntry, SourceFile};
use docket::render::{PageKind, RenderOp};

fn md(path: &str, text: &str) -> SourceEntry {
    SourceEntry::File(SourceFile { path: path.to_owned(), content: Some(text.to_owned()) })
}

fn plain(path: &str) -> SourceEntry {
    SourceEntry::File(SourceFile { path: path.to_owned(), content: None })
}

fn dir(path: &str, entries: Vec<SourceEntry>) -> SourceDir {
    SourceDir { path: path.to_owned(), entries }
}

#[test]
fn title_from_components_skips_docs() {
    let comps = vec!["home".to_owned(), "project".to_owned(), "docs".to_owned()];
    assert_eq!("project", title_from_components(comps));
    assert_eq!("Documentation", title_from_components(vec!["docs".to_owned()]));
}

#[test]
fn end_to_end_plan() {
    let root = dir(
        "src/docs",
        vec![
            md("src/docs/index.md", "# Welcome\n\nhello\n"),
            md("src/docs/guide.md", "# One\n\n# Two\n"),
            SourceEntry::Dir(dir(
                "src/docs/topics",
                vec![md("src/docs/topics/readme.md", "# All Topics\n"), md("src/docs/topics/a.md", "# A\n")],
            )),
            plain("src/docs/shot.png"),
        ],
    );
    let docket = Docket::open("My Site".to_owned(), root).unwrap();
    let (ops, err) = docket.render("out", vec![Asset::internal("style.css", "body{}")]);
    assert!(err.is_none());

    // Directories, in walk order.
    let dirs: Vec<&str> = ops
        .iter()
        .filter_map(|o| match o {
            RenderOp::EnsureDir(d) => Some(d.as_str()),
            _ => None,
        })
        .collect();
    assert_eq!(vec!["out", "out", "out/guide", "out/topics", "out/topics/a"], dirs);

    // Pages: the root index, guide, the topics index, and topics/a.
    let pages: Vec<(&str, bool, &str)> = ops
        .iter()
        .filter_map(|o| match o {
            RenderOp::WritePage(d, kind, page, _ctx) => Some((
                d.as_str(),
                matches!(kind, PageKind::Index),
                page.title().as_str(),
            )),
            _ => None,
        })
        .collect();
    assert_eq!(
        vec![
            ("out", true, "Welcome"),
            ("out/guide", false, "One"),
            ("out/topics", true, "All Topics"),
            ("out/topics/a", false, "A"),
        ],
        pages
    );

    // Assets: the site-wide stylesheet and the image, both at the root.
    let assets: Vec<(&str, bool)> = ops
        .iter()
        .filter_map(|o| match o {
            RenderOp::CopyAsset(a, d) => Some((
                d.as_str(),
                matches!(a, Asset::Internal(_)),
            )),
            _ => None,
        })
        .collect();
    assert_eq!(vec![("out", true), ("out", false)], assets);

    // The root page's navigation lists guide and topics, with the titles of
    // their first headings.
    let root_ctx = ops
        .iter()
        .find_map(|o| match o {
            RenderOp::WritePage(d, PageKind::Index, _p, ctx) if d == "out" => Some(ctx),
            _ => None,
        })
        .unwrap();
    let navs: Vec<(&str, &str)> =
        root_ctx.navs.iter().map(|n| (n.slug.as_str(), n.title.as_str())).collect();
    assert_eq!(vec![("guide", "One"), ("topics", "All Topics")], navs);
    assert_eq!(vec!["My Site".to_owned()], root_ctx.crumb_titles);

    // A nested page's breadcrumbs name the site and its bale.
    let nested_ctx = ops
        .iter()
        .find_map(|o| match o {
            RenderOp::WritePage(d, PageKind::Nested(_), _p, ctx) if d == "out/topics/a" => {
                Some(ctx)
            },
            _ => None,
        })
        .unwrap();
    assert_eq!(vec!["My Site".to_owned(), "All Topics".to_owned()], nested_ctx.crumb_titles);
    assert_eq!("All Topics", nested_ctx.bale_title);
}

#[test]
fn failing_nested_break_keeps_earlier_ops_and_reports_the_path() {
    let root = dir(
        "docs",
        vec![
            md("docs/index.md", "# Site\n"),
            SourceEntry::Dir(dir("docs/broken", vec![plain("docs/broken/page.md")])),
        ],
    );
    let docket = Docket::open("T".to_owned(), root).unwrap();
    let (ops, err) = docket.render("out", Vec::new());
    match err {
        Some(docket::error::DocketError::Io(p)) => assert_eq!("docs/broken/page.md", p),
        _ => panic!("expected the unread nested page to abort the render"),
    }
    // The root directory and its index were still planned.
    assert!(ops.iter().any(|o| matches!(o, RenderOp::EnsureDir(d) if d == "out")));
    assert!(ops.iter().any(|o| matches!(o, RenderOp::WritePage(d, PageKind::Index, _, _) if d == "out")));
}

#[test]
fn page_kind_path_to_bale() {
    assert_eq!("./", PageKind::Index.path_to_bale());
    assert_eq!("../", PageKind::Nested("x".to_owned()).path_to_bale());
}
