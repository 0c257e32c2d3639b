//! The documentation tree.
//!
//! This module models the tree of documentation to be rendered. The tree is
//! made up of two things: bales and pages. Bales form the interior nodes and
//! pages the leaves.
//!
//! The library never touches the filesystem itself: the embedding binary
//! hands it the source directory as an in-memory [`SourceDir`], with the
//! content of each markdown file already read. Resolution is lazy, in two
//! phases: [`Bale::new`] performs only the shallow classification of one
//! directory's entries (opening just the index, whose title the navigation
//! needs), and [`Bale::break_open`] resolves the remaining candidates one
//! level deeper.

use vstd::prelude::*;

use crate::error::DocketError;
use crate::md::{markdown_html_of, render_markdown};
use crate::toc::{Toc, TocElemView, primary_heading_of, toc_of_text};
use crate::utils;
use crate::utils::{
    ascii_lower, extension_of_name, file_name_of, prettified_name, slug_of, stem_of_name,
    stem_of_path,
};

verus! {

// ---------------------------------------------------------------------------
// The source tree, as plain values
// ---------------------------------------------------------------------------

/// One file of the source tree: its path and, for markdown files, its text.
pub struct SourceFile {
    /// The on-disk path of the file; its last component is the file's name.
    pub path: String,
    /// The file's text, present when the file may need parsing.
    pub content: Option<String>,
}

/// One entry of a directory.
pub enum SourceEntry {
    File(SourceFile),
    Dir(SourceDir),
}

/// One directory of the source tree, listed shallowly or deeply.
pub struct SourceDir {
    /// The on-disk path of the directory.
    pub path: String,
    /// The directory's immediate children.
    pub entries: Vec<SourceEntry>,
}

/// Every directory of the tree has a last path component to draw a title
/// and slug from.
pub open spec fn dir_wf(d: SourceDir) -> bool
    decreases d,
{
    &&& file_name_of(d.path@) is Some
    &&& entries_wf(d.entries@)
}

pub open spec fn entries_wf(s: Seq<SourceEntry>) -> bool
    decreases s,
{
    if s.len() == 0 {
        true
    } else {
        entries_wf(s.drop_last()) && entry_wf(s.last())
    }
}

pub open spec fn entry_wf(e: SourceEntry) -> bool
    decreases e,
{
    match e {
        SourceEntry::File(_) => true,
        SourceEntry::Dir(d) => dir_wf(d),
    }
}

/// The size of a directory: how many entries it holds, transitively. The
/// recursive walk of the tree terminates because this shrinks.
pub open spec fn dir_size(d: SourceDir) -> nat
    decreases d,
{
    1 + entries_size(d.entries@)
}

pub open spec fn entries_size(s: Seq<SourceEntry>) -> nat
    decreases s,
{
    if s.len() == 0 {
        0
    } else {
        entries_size(s.drop_last()) + entry_size(s.last())
    }
}

pub open spec fn entry_size(e: SourceEntry) -> nat
    decreases e,
{
    match e {
        SourceEntry::File(_) => 1,
        SourceEntry::Dir(d) => 1 + dir_size(d),
    }
}

/// The total size of a run of directories.
pub open spec fn dirs_size(s: Seq<SourceDir>) -> nat
    decreases s,
{
    if s.len() == 0 {
        0
    } else {
        dirs_size(s.drop_last()) + dir_size(s.last())
    }
}

// ---------------------------------------------------------------------------
// Classification of a directory's entries
// ---------------------------------------------------------------------------

/// The normalised (lowercased) extension of a path, if any.
pub open spec fn norm_ext_of(path: Seq<char>) -> Option<Seq<char>> {
    match file_name_of(path) {
        Some(name) => match extension_of_name(name) {
            Some(e) => Some(ascii_lower(e)),
            None => None,
        },
        None => None,
    }
}

/// The normalised (lowercased) stem of a path, if any.
pub open spec fn norm_stem_of(path: Seq<char>) -> Option<Seq<char>> {
    match file_name_of(path) {
        Some(name) => Some(ascii_lower(stem_of_name(name))),
        None => None,
    }
}

/// A markdown file: extension `md`, `markdown` or `mdown`, case-insensitively.
pub open spec fn is_markdown_path(path: Seq<char>) -> bool {
    ||| norm_ext_of(path) == Some(seq!['m', 'd'])
    ||| norm_ext_of(path) == Some(seq!['m', 'a', 'r', 'k', 'd', 'o', 'w', 'n'])
    ||| norm_ext_of(path) == Some(seq!['m', 'd', 'o', 'w', 'n'])
}

/// A directory's index page: a markdown file whose stem is `index` or
/// `readme`, case-insensitively.
pub open spec fn is_index_path(path: Seq<char>) -> bool {
    &&& is_markdown_path(path)
    &&& (norm_stem_of(path) == Some(seq!['i', 'n', 'd', 'e', 'x']) || norm_stem_of(path) == Some(
        seq!['r', 'e', 'a', 'd', 'm', 'e'],
    ))
}

/// A directory's footer source: a markdown file whose stem is `footer`.
pub open spec fn is_footer_path(path: Seq<char>) -> bool {
    &&& is_markdown_path(path)
    &&& norm_stem_of(path) == Some(seq!['f', 'o', 'o', 't', 'e', 'r'])
}

/// The outcome of the shallow scan of one directory: the index and footer
/// files if present (the last of each winning), the candidate pages, the
/// plain assets, and the candidate nested directories, in their original
/// order.
pub struct Classified {
    pub index: Option<SourceFile>,
    pub footer: Option<SourceFile>,
    pub pages: Seq<SourceFile>,
    pub assets: Seq<SourceFile>,
    pub nested: Seq<SourceDir>,
}

/// Classifies a directory's entries, in order.
pub open spec fn classify(s: Seq<SourceEntry>) -> Classified
    decreases s,
{
    if s.len() == 0 {
        Classified {
            index: None,
            footer: None,
            pages: Seq::empty(),
            assets: Seq::empty(),
            nested: Seq::empty(),
        }
    } else {
        let prev = classify(s.drop_last());
        match s.last() {
            SourceEntry::File(f) => {
                if is_index_path(f.path@) {
                    Classified { index: Some(f), ..prev }
                } else if is_footer_path(f.path@) {
                    Classified { footer: Some(f), ..prev }
                } else if is_markdown_path(f.path@) {
                    Classified { pages: prev.pages.push(f), ..prev }
                } else {
                    Classified { assets: prev.assets.push(f), ..prev }
                }
            },
            SourceEntry::Dir(d) => Classified { nested: prev.nested.push(d), ..prev },
        }
    }
}

/// Whether a file's content must be loaded for the tree to be usable: true
/// exactly of markdown files (pages, indexes, readmes and footers).
pub fn wants_content(path: &str) -> (r: bool)
    ensures
        r == is_markdown_path(path@),
{
    match utils::normalised_path_ext(path) {
        Some(e) => {
            let s = e.as_str();
            str_eq2(s, 'm', 'd') || str_eq5(s) || str_eq8(s)
        },
        None => false,
    }
}

/// True when `s` is exactly the two given characters.
fn str_eq2(s: &str, c0: char, c1: char) -> (r: bool)
    ensures
        r == (s@ == seq![c0, c1]),
{
    let n = s.unicode_len();
    if n == 2 {
        let r = s.get_char(0) == c0 && s.get_char(1) == c1;
        proof {
            if r {
                assert(s@ =~= seq![c0, c1]);
            } else if s@ == seq![c0, c1] {
                assert(s@[0] == c0 && s@[1] == c1);
            }
        }
        r
    } else {
        proof {
            if s@ == seq![c0, c1] {
                assert(s@.len() == 2);
            }
        }
        false
    }
}

/// True when `s` is exactly `mdown`.
fn str_eq5(s: &str) -> (r: bool)
    ensures
        r == (s@ == seq!['m', 'd', 'o', 'w', 'n']),
{
    let n = s.unicode_len();
    if n == 5 {
        let r = s.get_char(0) == 'm' && s.get_char(1) == 'd' && s.get_char(2) == 'o' && s.get_char(
            3,
        ) == 'w' && s.get_char(4) == 'n';
        proof {
            if r {
                assert(s@ =~= seq!['m', 'd', 'o', 'w', 'n']);
            } else if s@ == seq!['m', 'd', 'o', 'w', 'n'] {
                assert(s@[0] == 'm' && s@[1] == 'd' && s@[2] == 'o' && s@[3] == 'w' && s@[4] == 'n');
            }
        }
        r
    } else {
        proof {
            if s@ == seq!['m', 'd', 'o', 'w', 'n'] {
                assert(s@.len() == 5);
            }
        }
        false
    }
}

/// True when `s` is exactly `markdown`.
fn str_eq8(s: &str) -> (r: bool)
    ensures
        r == (s@ == seq!['m', 'a', 'r', 'k', 'd', 'o', 'w', 'n']),
{
    let ghost t: Seq<char> = seq!['m', 'a', 'r', 'k', 'd', 'o', 'w', 'n'];
    let n = s.unicode_len();
    if n == 8 {
        let r = s.get_char(0) == 'm' && s.get_char(1) == 'a' && s.get_char(2) == 'r' && s.get_char(
            3,
        ) == 'k' && s.get_char(4) == 'd' && s.get_char(5) == 'o' && s.get_char(6) == 'w'
            && s.get_char(7) == 'n';
        proof {
            if r {
                assert(s@ =~= t);
            } else if s@ == t {
                assert(s@[0] == 'm' && s@[1] == 'a' && s@[2] == 'r' && s@[3] == 'k' && s@[4] == 'd'
                    && s@[5] == 'o' && s@[6] == 'w' && s@[7] == 'n');
            }
        }
        r
    } else {
        proof {
            if s@ == t {
                assert(s@.len() == 8);
            }
        }
        false
    }
}

// ---------------------------------------------------------------------------
// Pages
// ---------------------------------------------------------------------------

/// The model of a [`Page`].
pub struct PageView {
    pub slug: Seq<char>,
    pub title: Seq<char>,
    pub tree: Seq<TocElemView>,
}

/// A documentation page: a slug to refer to it by in navigation, a title,
/// and the tree of contents of its markdown text.
pub struct Page {
    slug: String,
    title: String,
    tree: Toc,
}

impl View for Page {
    type V = PageView;

    closed spec fn view(&self) -> PageView {
        PageView { slug: self.slug@, title: self.title@, tree: self.tree@ }
    }
}

/// The page a markdown file denotes: the slug of the path's stem, the first
/// heading's text as the title (the stem again when there is none), and the
/// document's tree of contents.
pub open spec fn page_of(path: Seq<char>, markdown: Seq<char>) -> PageView {
    PageView {
        slug: slug_of(stem_of_path(path)),
        title: match primary_heading_of(toc_of_text(markdown)) {
            Some(t) => t,
            None => match file_name_of(path) {
                Some(name) => stem_of_name(name),
                None => Seq::empty(),
            },
        },
        tree: toc_of_text(markdown),
    }
}

impl Page {
    /// Construct a page from its path and its markdown text.
    pub fn from_parts(path: &str, markdown: &str) -> (r: Page)
        requires
            file_name_of(path@) is Some,
        ensures
            r@ == page_of(path@, markdown@),
    {
        let slug = utils::slugify_path(path);
        let tree = Toc::new(markdown);
        let title = match tree.primary_heading() {
            Some(t) => t.clone(),
            None => {
                let name = utils::file_name(path).unwrap();
                let stem = utils::stem_chars(&name);
                utils::chars_to_string(&stem)
            },
        };
        Page { slug, title, tree }
    }

    /// Open a page: parse the markdown content of the given source file.
    /// Fails exactly when the file's content was not loaded.
    pub fn open(file: &SourceFile) -> (r: Result<Page, DocketError>)
        requires
            file_name_of(file.path@) is Some,
        ensures
            match r {
                Ok(p) => file.content matches Some(md) && p@ == page_of(file.path@, md@),
                Err(e) => file.content is None && (e matches DocketError::Io(p) && p@
                    == file.path@),
            },
    {
        match &file.content {
            Some(md) => Ok(Page::from_parts(file.path.as_str(), md.as_str())),
            None => Err(DocketError::Io(file.path.clone())),
        }
    }

    /// The title of this page.
    pub fn title<'a>(&'a self) -> (r: &'a String)
        ensures
            r@ == self@.title,
    {
        &self.title
    }

    /// The slug of this page.
    pub fn slug<'a>(&'a self) -> (r: &'a String)
        ensures
            r@ == self@.slug,
    {
        &self.slug
    }

    /// The content of this page.
    pub fn content<'a>(&'a self) -> (r: &'a Toc)
        ensures
            r@ == self@.tree,
    {
        &self.tree
    }
}

// ---------------------------------------------------------------------------
// Frontispiece
// ---------------------------------------------------------------------------

/// The model of a [`Frontispiece`].
pub struct FrontispieceView {
    pub title: Seq<char>,
    pub slug: Seq<char>,
    pub index: Option<PageView>,
    pub footer: Option<Seq<char>>,
}

/// The eagerly-computed metadata of a bale: its title and slug for
/// navigation, its index page if one exists, and its rendered footer.
pub struct Frontispiece {
    title: String,
    slug: String,
    index: Option<Page>,
    footer: Option<String>,
}

impl View for Frontispiece {
    type V = FrontispieceView;

    closed spec fn view(&self) -> FrontispieceView {
        FrontispieceView {
            title: self.title@,
            slug: self.slug@,
            index: match &self.index {
                Some(p) => Some(p@),
                None => None,
            },
            footer: match &self.footer {
                Some(f) => Some(f@),
                None => None,
            },
        }
    }
}

/// The frontispiece a directory gets: the index page's title when it has
/// one, the prettified directory name otherwise; the slug of the path's
/// stem; and the footer markdown rendered to HTML.
pub open spec fn frontispiece_of(
    path: Seq<char>,
    index: Option<PageView>,
    footer: Option<Seq<char>>,
) -> FrontispieceView {
    FrontispieceView {
        title: match index {
            Some(p) => p.title,
            None => match file_name_of(path) {
                Some(name) => prettified_name(name),
                None => Seq::empty(),
            },
        },
        slug: slug_of(stem_of_path(path)),
        index,
        footer: match footer {
            Some(f) => Some(markdown_html_of(f)),
            None => None,
        },
    }
}

impl Frontispiece {
    /// Create a frontispiece: picks a title and slug for a bale from its
    /// path and index, and renders its footer markdown once.
    fn new(path: &str, index: Option<Page>, footer: Option<&String>) -> (r: Frontispiece)
        requires
            index is Some || file_name_of(path@) is Some,
        ensures
            r@ == frontispiece_of(
                path@,
                match index {
                    Some(p) => Some(p@),
                    None => None,
                },
                match footer {
                    Some(f) => Some(f@),
                    None => None,
                },
            ),
    {
        let title = match &index {
            Some(page) => page.title().clone(),
            None => utils::prettify_dir(path).unwrap(),
        };
        let footer = match footer {
            Some(text) => Some(render_markdown(text.as_str())),
            None => None,
        };
        Frontispiece { title, slug: utils::slugify_path(path), index, footer }
    }

    /// The bale's slug.
    pub fn slug<'a>(&'a self) -> (r: &'a String)
        ensures
            r@ == self@.slug,
    {
        &self.slug
    }

    /// The bale's title.
    pub fn title<'a>(&'a self) -> (r: &'a String)
        ensures
            r@ == self@.title,
    {
        &self.title
    }

    /// The index page of this bale, if any.
    pub fn index_page<'a>(&'a self) -> (r: Option<&'a Page>)
        ensures
            match r {
                Some(p) => self@.index == Some(p@),
                None => self@.index is None,
            },
    {
        self.index.as_ref()
    }

    /// Take the frontispiece apart: its title, slug, index page and footer.
    pub fn into_parts(self) -> (r: (String, String, Option<Page>, Option<String>))
        ensures
            r.0@ == self@.title,
            r.1@ == self@.slug,
            match r.2 {
                Some(p) => self@.index == Some(p@),
                None => self@.index is None,
            },
            match r.3 {
                Some(f) => self@.footer == Some(f@),
                None => self@.footer is None,
            },
    {
        (self.title, self.slug, self.index, self.footer)
    }

    /// The bale's rendered footer, if any.
    pub fn footer<'a>(&'a self) -> (r: Option<&'a String>)
        ensures
            match r {
                Some(f) => self@.footer == Some(f@),
                None => self@.footer is None,
            },
    {
        self.footer.as_ref()
    }
}

// ---------------------------------------------------------------------------
// Bales
// ---------------------------------------------------------------------------

/// The model of a [`Bale`] before it is broken open.
pub struct BaleView {
    pub frontispiece: FrontispieceView,
    pub pages: Seq<SourceFile>,
    pub assets: Seq<SourceFile>,
    pub nested: Seq<SourceDir>,
}

/// An unopened bale: an interior node of the tree whose children have been
/// classified by one shallow scan but not yet resolved.
pub struct Bale {
    frontispiece: Frontispiece,
    pages: Vec<SourceFile>,
    assets: Vec<SourceFile>,
    nested: Vec<SourceDir>,
}

impl View for Bale {
    type V = BaleView;

    closed spec fn view(&self) -> BaleView {
        BaleView {
            frontispiece: self.frontispiece@,
            pages: self.pages@,
            assets: self.assets@,
            nested: self.nested@,
        }
    }
}

/// The shallow scan succeeds when the chosen footer and index files, if
/// any, have their content loaded.
pub open spec fn scan_ok(dir: SourceDir) -> bool {
    let c = classify(dir.entries@);
    &&& (c.footer matches Some(f) ==> f.content is Some)
    &&& (c.index matches Some(f) ==> f.content is Some)
}

/// The path a failing shallow scan names: the footer's when its content is
/// missing, the index's otherwise.
pub open spec fn scan_err_path(dir: SourceDir) -> Seq<char> {
    let c = classify(dir.entries@);
    match c.footer {
        Some(f) => if f.content is None {
            f.path@
        } else {
            match c.index {
                Some(g) => g.path@,
                None => Seq::empty(),
            }
        },
        None => match c.index {
            Some(g) => g.path@,
            None => Seq::empty(),
        },
    }
}

/// The bale a successful shallow scan produces.
pub open spec fn scanned_bale(dir: SourceDir) -> BaleView {
    let c = classify(dir.entries@);
    BaleView {
        frontispiece: frontispiece_of(
            dir.path@,
            match c.index {
                Some(f) => Some(page_of(f.path@, f.content.unwrap()@)),
                None => None,
            },
            match c.footer {
                Some(f) => Some(f.content.unwrap()@),
                None => None,
            },
        ),
        pages: c.pages,
        assets: c.assets,
        nested: c.nested,
    }
}

/// A well-formed directory classifies into well-formed nested directories.
pub proof fn lemma_classify_wf(s: Seq<SourceEntry>)
    requires
        entries_wf(s),
    ensures
        forall|i: int|
            0 <= i < classify(s).nested.len() ==> #[trigger] dir_wf(classify(s).nested[i]),
    decreases s,
{
    if s.len() > 0 {
        lemma_classify_wf(s.drop_last());
        let prev = classify(s.drop_last());
        assert(entries_wf(s.drop_last()) && entry_wf(s.last()));
        assert forall|i: int|
            0 <= i < classify(s).nested.len() implies #[trigger] dir_wf(classify(s).nested[i]) by {
            match s.last() {
                SourceEntry::Dir(d) => {
                    assert(dir_wf(d));
                    assert(classify(s).nested == prev.nested.push(d));
                    if i < prev.nested.len() {
                        assert(classify(s).nested[i] == prev.nested[i]);
                        assert(dir_wf(prev.nested[i]));
                    } else {
                        assert(classify(s).nested[i] == d);
                    }
                },
                SourceEntry::File(_) => {
                    assert(classify(s).nested[i] == prev.nested[i]);
                    assert(dir_wf(prev.nested[i]));
                },
            }
        }
    }
}

/// Classification never grows past the entries it reads.
pub proof fn lemma_classify_size(s: Seq<SourceEntry>)
    ensures
        dirs_size(classify(s).nested) <= entries_size(s),
        classify(s).pages.len() <= entries_size(s),
    decreases s,
{
    if s.len() > 0 {
        lemma_classify_size(s.drop_last());
        let prev = classify(s.drop_last());
        assert(entries_size(s) == entries_size(s.drop_last()) + entry_size(s.last()));
        match s.last() {
            SourceEntry::Dir(d) => {
                assert(classify(s).nested == prev.nested.push(d));
                assert(prev.nested.push(d).drop_last() =~= prev.nested);
                assert(dirs_size(prev.nested.push(d)) == dirs_size(prev.nested) + dir_size(d));
            },
            SourceEntry::File(f) => {
                assert(classify(s).nested == prev.nested);
                assert(classify(s).pages.len() <= prev.pages.len() + 1);
            },
        }
    }
}

/// A classified index file is an index page by path.
pub proof fn lemma_classify_index(s: Seq<SourceEntry>)
    ensures
        classify(s).index matches Some(f) ==> is_index_path(f.path@),
        classify(s).footer matches Some(f) ==> is_footer_path(f.path@),
    decreases s,
{
    if s.len() > 0 {
        lemma_classify_index(s.drop_last());
    }
}

/// A markdown path always has a last component.
proof fn lemma_markdown_has_name(path: Seq<char>)
    requires
        is_markdown_path(path),
    ensures
        file_name_of(path) is Some,
{
}

/// Every classified page is a markdown file.
proof fn lemma_classify_pages_md(s: Seq<SourceEntry>)
    ensures
        forall|i: int|
            0 <= i < classify(s).pages.len() ==> #[trigger] is_markdown_path(
                classify(s).pages[i].path@,
            ),
    decreases s,
{
    if s.len() > 0 {
        lemma_classify_pages_md(s.drop_last());
        let prev = classify(s.drop_last());
        assert forall|i: int|
            0 <= i < classify(s).pages.len() implies #[trigger] is_markdown_path(
            classify(s).pages[i].path@,
        ) by {
            if i < prev.pages.len() {
                assert(classify(s).pages[i] == prev.pages[i]);
            }
        }
    }
}

impl Bale {
    /// Scan one directory shallowly: classify its entries, open its index
    /// page, and build its frontispiece. Succeeds exactly when the contents
    /// of the chosen footer and index files are at hand.
    pub fn new(dir: SourceDir) -> (r: Result<Bale, DocketError>)
        requires
            entries_wf(dir.entries@),
            file_name_of(dir.path@) is Some,
        ensures
            match r {
                Ok(b) => scan_ok(dir) && b@ == scanned_bale(dir) && bale_wf(b@),
                Err(e) => !scan_ok(dir) && (e matches DocketError::Io(p) && p@ == scan_err_path(
                    dir,
                )),
            },
    {
        let SourceDir { path, entries } = dir;
        let mut entries = entries;
        let mut index: Option<SourceFile> = None;
        let mut footer: Option<SourceFile> = None;
        let mut pages: Vec<SourceFile> = Vec::new();
        let mut assets: Vec<SourceFile> = Vec::new();
        let mut nested: Vec<SourceDir> = Vec::new();
        let ghost entries0 = entries@;
        let ghost mut done = Seq::<SourceEntry>::empty();
        proof {
            assert(done + entries@ =~= entries0);
        }
        while entries.len() > 0
            invariant
                done + entries@ == entries0,
                classify(done).index == match index {
                    Some(f) => Some(f),
                    None => None::<SourceFile>,
                },
                classify(done).footer == match footer {
                    Some(f) => Some(f),
                    None => None::<SourceFile>,
                },
                classify(done).pages == pages@,
                classify(done).assets == assets@,
                classify(done).nested == nested@,
            decreases entries.len(),
        {
            let ghost pre = entries@;
            let e = entries.remove(0);
            proof {
                assert(done.push(e).drop_last() =~= done);
                assert(done.push(e) + entries@ =~= done + pre);
            }
            match e {
                SourceEntry::File(f) => {
                    if is_index_file(&f) {
                        index = Some(f);
                    } else if is_footer_file(&f) {
                        footer = Some(f);
                    } else if wants_content(f.path.as_str()) {
                        pages.push(f);
                    } else {
                        assets.push(f);
                    }
                },
                SourceEntry::Dir(d) => {
                    nested.push(d);
                },
            }
            proof {
                done = done.push(e);
            }
        }
        proof {
            assert(done =~= done + entries@);
        }
        // Read the footer text, then open the index page: both need their
        // content at hand.
        let footer_text: Option<String> = match footer {
            Some(f) => {
                match f.content {
                    Some(c) => Some(c),
                    None => {
                        return Err(DocketError::Io(f.path));
                    },
                }
            },
            None => None,
        };
        let index_page: Option<Page> = match &index {
            Some(f) => {
                proof {
                    lemma_classify_index(done);
                }
                match Page::open(f) {
                    Ok(p) => Some(p),
                    Err(e) => {
                        return Err(e);
                    },
                }
            },
            None => None,
        };
        let frontispiece = Frontispiece::new(path.as_str(), index_page, footer_text.as_ref());
        proof {
            lemma_classify_wf(done);
            lemma_classify_pages_md(done);
            assert forall|i: int|
                0 <= i < pages@.len() implies #[trigger] file_name_of(
                pages@[i].path@,
            ) is Some by {
                assert(is_markdown_path(classify(done).pages[i].path@));
            }
        }
        Ok(Bale { frontispiece, pages, assets, nested })
    }

    /// The frontispiece of this bale.
    pub fn frontispiece<'a>(&'a self) -> (r: &'a Frontispiece)
        ensures
            r@ == self@.frontispiece,
    {
        &self.frontispiece
    }

    /// Break open the bale: open every candidate page, scan every nested
    /// directory (demoting those with nothing navigable to assets), and sort
    /// the items back into their on-disk name order.
    pub fn break_open(self) -> (r: Result<
        (Frontispiece, Vec<crate::asset::Asset>, Vec<DoctreeItem>),
        DocketError,
    >)
        requires
            bale_wf(self@),
        ensures
            match r {
                Ok(t) => {
                    &&& break_ok(self@)
                    &&& t.0@ == self@.frontispiece
                    &&& assets_view(t.1@) == break_open_assets(self@)
                    &&& items_view(t.2@) == break_open_items(self@)
                    &&& items_measure(items_view(t.2@)) <= dirs_size(self@.nested)
                    &&& forall|i: int|
                        0 <= i < t.2@.len() ==> ((#[trigger] t.2@[i]) matches DoctreeItem::Bale(b)
                            ==> bale_wf(b@))
                },
                Err(e) => {
                    &&& !break_ok(self@)
                    &&& (e matches DocketError::Io(p) && p@ == break_err_path(self@))
                },
            },
    {
        let ghost b0 = self@;
        let Bale { frontispiece, pages, assets, nested } = self;

        // The plain assets, in their classified order.
        let mut out_assets: Vec<crate::asset::Asset> = Vec::new();
        let mut rest_assets = assets;
        let ghost assets0 = rest_assets@;
        let ghost mut adone = Seq::<SourceFile>::empty();
        proof {
            assert(adone + rest_assets@ =~= assets0);
            assert(assets_view(out_assets@) =~= files_as_assets(adone));
        }
        while rest_assets.len() > 0
            invariant
                adone + rest_assets@ == assets0,
                assets_view(out_assets@) == files_as_assets(adone),
            decreases rest_assets.len(),
        {
            let ghost pre = rest_assets@;
            let f = rest_assets.remove(0);
            let ghost gf = f;
            let ghost oa0 = out_assets@;
            let a = crate::asset::Asset::path(f.path);
            let ghost ga = a;
            out_assets.push(a);
            proof {
                assert(adone.push(gf) + rest_assets@ =~= adone + pre);
                assert(ga@ == crate::asset::AssetView::Disk(gf.path@));
                assert(assets_view(out_assets@) =~= assets_view(oa0).push(ga@));
                assert(files_as_assets(adone.push(gf)) =~= files_as_assets(adone).push(
                    crate::asset::AssetView::Disk(gf.path@),
                ));
                adone = adone.push(gf);
            }
        }
        proof {
            assert(adone =~= assets0);
        }

        // Open each candidate page.
        let mut items: Vec<(Option<String>, DoctreeItem)> = Vec::new();
        let np = pages.len();
        let mut i: usize = 0;
        proof {
            assert(kvs_view(items@) =~= keyed_pages(pages@.take(0)));
        }
        while i < np
            invariant
                i <= np,
                np == pages@.len(),
                pages@ == b0.pages,
                b0 == self@,
                bale_wf(b0),
                forall|j: int| 0 <= j < i ==> #[trigger] pages@[j].content is Some,
                kvs_view(items@) == keyed_pages(pages@.take(i as int)),
            decreases np - i,
        {
            let f = &pages[i];
            match Page::open(f) {
                Ok(p) => {
                    let key = utils::normalised_stem(f.path.as_str());
                    let ghost items0 = items@;
                    items.push((key, DoctreeItem::Page(p)));
                    proof {
                        assert(opt_str_view(key) == norm_stem_of(f.path@));
                        assert(kvs_view(items@) =~= kvs_view(items0).push(
                            kv_view((key, DoctreeItem::Page(p))),
                        ));
                        assert(kvs_view(items@) =~= keyed_pages(pages@.take(i + 1)));
                    }
                },
                Err(e) => {
                    proof {
                        lemma_first_missing_at(pages@, i as int);
                        assert(first_missing_page(b0.pages) == Some(b0.pages[i as int]));
                        assert(!break_ok(b0));
                        assert(e matches DocketError::Io(p) && p@ == b0.pages[i as int].path@);
                    }
                    return Err(e);
                },
            }
            i = i + 1;
        }
        proof {
            assert(pages@.take(np as int) =~= pages@);
            lemma_first_missing_none(pages@);
        }

        // Scan each nested directory, demoting the ones with nothing
        // navigable in them.
        let mut rest = nested;
        let ghost nested0 = rest@;
        let ghost mut ndone = Seq::<SourceDir>::empty();
        proof {
            assert(ndone + rest@ =~= nested0);
            assert(keyed_nested(ndone) =~= Seq::<KeyedItemView>::empty());
            assert(kvs_view(items@) =~= keyed_pages(pages@) + keyed_nested(ndone));
            lemma_km_pages(pages@);
            lemma_km_concat(keyed_pages(pages@), keyed_nested(ndone));
            assert(demoted_paths(ndone) =~= Seq::<Seq<char>>::empty());
            assert(assets_view(out_assets@) =~= files_as_assets(b0.assets) + paths_as_assets(
                demoted_paths(ndone),
            ));
        }
        while rest.len() > 0
            invariant
                ndone + rest@ == nested0,
                nested0 == b0.nested,
                b0 == self@,
                bale_wf(b0),
                forall|j: int| 0 <= j < ndone.len() ==> scan_ok(#[trigger] ndone[j]),
                kvs_view(items@) == keyed_pages(b0.pages) + keyed_nested(ndone),
                km(kvs_view(items@)) <= dirs_size(ndone),
                first_missing_page(b0.pages) is None,
                assets_view(out_assets@) == files_as_assets(b0.assets) + paths_as_assets(
                    demoted_paths(ndone),
                ),
            decreases rest.len(),
        {
            let ghost pre = rest@;
            let d = rest.remove(0);
            let ghost gd = d;
            proof {
                assert(nested0[ndone.len() as int] == gd);
                assert(dir_wf(gd));
                assert(ndone.push(gd) + rest@ =~= ndone + pre);
            }
            let dpath = d.path.clone();
            match Bale::new(d) {
                Ok(b) => {
                    let is_demoted = b.frontispiece.index.is_none() && b.pages.len() == 0;
                    proof {
                        assert(b@.frontispiece.index is None <==> classify(
                            gd.entries@,
                        ).index is None);
                        assert(ndone.push(gd).drop_last() =~= ndone);
                    }
                    if is_demoted {
                        let ghost oa0 = out_assets@;
                        out_assets.push(crate::asset::Asset::Disk(dpath));
                        proof {
                            assert(demoted(gd));
                            assert(demoted_paths(ndone.push(gd)) =~= demoted_paths(ndone).push(
                                gd.path@,
                            ));
                            assert(assets_view(out_assets@) =~= assets_view(oa0).push(
                                crate::asset::AssetView::Disk(gd.path@),
                            ));
                            assert(paths_as_assets(demoted_paths(ndone).push(gd.path@))
                                =~= paths_as_assets(demoted_paths(ndone)).push(
                                crate::asset::AssetView::Disk(gd.path@),
                            ));
                            assert(assets_view(out_assets@) =~= files_as_assets(b0.assets)
                                + paths_as_assets(demoted_paths(ndone.push(gd))));
                            assert(keyed_nested(ndone.push(gd)) =~= keyed_nested(ndone));
                            assert(dirs_size(ndone.push(gd)) == dirs_size(ndone) + dir_size(gd));
                            ndone = ndone.push(gd);
                        }
                    } else {
                        let key = utils::normalised_stem(dpath.as_str());
                        let ghost items0 = items@;
                        proof {
                            assert(!demoted(gd));
                            assert(file_name_of(gd.path@) is Some);
                            assert(opt_str_view(key) == norm_stem_of(gd.path@));
                        }
                        items.push((key, DoctreeItem::Bale(b)));
                        proof {
                            let kv = (norm_stem_of(gd.path@), DoctreeItemView::Bale(
                                scanned_bale(gd),
                            ));
                            assert(keyed_nested(ndone.push(gd)) =~= keyed_nested(ndone).push(kv));
                            assert(kvs_view(items@) =~= kvs_view(items0).push(kv));
                            assert(kvs_view(items@) =~= keyed_pages(b0.pages) + keyed_nested(
                                ndone.push(gd),
                            ));
                            assert(kvs_view(items@).drop_last() =~= kvs_view(items0));
                            lemma_classify_size(gd.entries@);
                            assert(item_measure(kv.1) <= dir_size(gd));
                            assert(km(kvs_view(items@)) == km(kvs_view(items0)) + item_measure(
                                kv.1,
                            ));
                            assert(dirs_size(ndone.push(gd)) == dirs_size(ndone) + dir_size(gd));
                            assert(demoted_paths(ndone.push(gd)) =~= demoted_paths(ndone));
                            lemma_classify_wf(gd.entries@);
                            ndone = ndone.push(gd);
                        }
                    }
                },
                Err(e) => {
                    proof {
                        assert(forall|j: int|
                            0 <= j < ndone.len() ==> scan_ok(#[trigger] nested0[j]));
                        lemma_first_bad_at(nested0, ndone.len() as int);
                        assert(first_bad_dir(b0.nested) == Some(gd));
                        assert(!break_ok(b0));
                        assert(first_missing_page(b0.pages) is None);
                        assert(e matches DocketError::Io(p) && p@ == scan_err_path(gd));
                    }
                    return Err(e);
                },
            }
        }
        proof {
            assert(ndone =~= nested0);
            lemma_first_bad_none(nested0);
        }

        // Restore the on-disk name order, then drop the keys.
        let ghost unsorted = kvs_view(items@);
        let sorted = sort_keyed(items);
        proof {
            lemma_sort_km(unsorted);
        }
        let mut out_items: Vec<DoctreeItem> = Vec::new();
        let mut rest_kv = sorted;
        let ghost sorted0 = kvs_view(rest_kv@);
        let ghost mut kdone = Seq::<KeyedItemView>::empty();
        proof {
            assert(kdone + kvs_view(rest_kv@) =~= sorted0);
            assert(items_view(out_items@) =~= strip_keys(kdone));
        }
        while rest_kv.len() > 0
            invariant
                kdone + kvs_view(rest_kv@) == sorted0,
                items_view(out_items@) == strip_keys(kdone),
            decreases rest_kv.len(),
        {
            let ghost pre = kvs_view(rest_kv@);
            let kv = rest_kv.remove(0);
            let ghost gkv = kv_view(kv);
            let ghost oi0 = out_items@;
            out_items.push(kv.1);
            proof {
                assert(kdone.push(gkv) + kvs_view(rest_kv@) =~= kdone + pre);
                assert(items_view(out_items@) =~= items_view(oi0).push(gkv.1));
                assert(strip_keys(kdone.push(gkv)) =~= strip_keys(kdone).push(gkv.1));
                kdone = kdone.push(gkv);
            }
        }
        proof {
            assert(kdone =~= sorted0);
            lemma_km_strip(sorted0);
            lemma_break_items_wf(b0);
            assert forall|j: int|
                0 <= j < out_items@.len() implies ((#[trigger] out_items@[j])
                matches DoctreeItem::Bale(b) ==> bale_wf(b@)) by {
                assert(items_view(out_items@)[j] == out_items@[j]@);
                assert(break_open_items(b0)[j] == out_items@[j]@);
            }
        }
        Ok((frontispiece, out_assets, out_items))
    }
}

/// The recursion cost of concatenated runs adds up.
proof fn lemma_km_concat(a: Seq<KeyedItemView>, b: Seq<KeyedItemView>)
    ensures
        km(a + b) == km(a) + km(b),
    decreases b.len(),
{
    if b.len() == 0 {
        assert(a + b =~= a);
    } else {
        lemma_km_concat(a, b.drop_last());
        assert((a + b).drop_last() =~= a + b.drop_last());
        assert((a + b).last() == b.last());
    }
}

// ---------------------------------------------------------------------------
// Item ordering
// ---------------------------------------------------------------------------
//
// Items keep the original on-disk name order even though slugs drop the
// `NN-` ordering prefix. Names are compared by their numeric prefix first,
// when both have one (so `2-setup` sorts before `10-intro`), and
// lexicographically by code point otherwise.

/// Lexicographic order on character sequences, by code point.
pub open spec fn lex_le(x: Seq<char>, y: Seq<char>) -> bool
    decreases x.len(),
{
    if x.len() == 0 {
        true
    } else if y.len() == 0 {
        false
    } else if x[0] != y[0] {
        (x[0] as u32) < (y[0] as u32)
    } else {
        lex_le(x.drop_first(), y.drop_first())
    }
}

/// The leading run of ASCII digits of a name.
pub open spec fn digit_run(s: Seq<char>) -> Seq<char> {
    s.take(utils::leading_run_len(s, utils::run_pred(3)))
}

/// The digits with leading zeros dropped.
pub open spec fn strip_zeros(s: Seq<char>) -> Seq<char> {
    s.skip(utils::leading_run_len(s, utils::run_pred(4)))
}

/// Order on names: when both start with digits and those prefixes differ in
/// value, the shorter stripped prefix (or the lexicographically smaller one
/// of equal length) is the smaller number; everything else falls back to
/// plain lexicographic order.
pub open spec fn name_le(x: Seq<char>, y: Seq<char>) -> bool {
    let dx = strip_zeros(digit_run(x));
    let dy = strip_zeros(digit_run(y));
    if digit_run(x).len() > 0 && digit_run(y).len() > 0 && dx != dy {
        if dx.len() != dy.len() {
            dx.len() < dy.len()
        } else {
            lex_le(dx, dy)
        }
    } else {
        lex_le(x, y)
    }
}

/// Order on sort keys: a missing key sorts first.
pub open spec fn key_le(x: Option<Seq<char>>, y: Option<Seq<char>>) -> bool {
    match (x, y) {
        (Option::None, _) => true,
        (Option::Some(_), Option::None) => false,
        (Option::Some(a), Option::Some(b)) => name_le(a, b),
    }
}

/// Lexicographic order, executable.
fn chars_lex_le(x: &Vec<char>, y: &Vec<char>) -> (r: bool)
    ensures
        r == lex_le(x@, y@),
{
    let n = x.len();
    let m = y.len();
    proof {
        assert(x@.skip(0) =~= x@);
        assert(y@.skip(0) =~= y@);
    }
    let mut i: usize = 0;
    while i < n && i < m && x[i] == y[i]
        invariant
            i <= n,
            i <= m,
            n == x@.len(),
            m == y@.len(),
            lex_le(x@, y@) == lex_le(x@.skip(i as int), y@.skip(i as int)),
        decreases n - i,
    {
        proof {
            assert(x@.skip(i as int)[0] == x@[i as int]);
            assert(y@.skip(i as int)[0] == y@[i as int]);
            assert(x@.skip(i as int).drop_first() =~= x@.skip(i + 1));
            assert(y@.skip(i as int).drop_first() =~= y@.skip(i + 1));
        }
        i = i + 1;
    }
    proof {
        if i < n {
            assert(x@.skip(i as int)[0] == x@[i as int]);
        }
        if i < m {
            assert(y@.skip(i as int)[0] == y@[i as int]);
        }
        assert(x@.skip(i as int).len() == n - i);
        assert(y@.skip(i as int).len() == m - i);
    }
    if i == n {
        true
    } else if i == m {
        false
    } else {
        (x[i] as u32) < (y[i] as u32)
    }
}

/// The stripped digit prefix `v[zeros..digits]` of a name's characters.
fn stripped_digits(v: &Vec<char>) -> (r: (usize, usize))
    ensures
        r.0 <= r.1 <= v@.len(),
        digit_run(v@) == v@.take(r.1 as int),
        strip_zeros(digit_run(v@)) == v@.subrange(r.0 as int, r.1 as int),
{
    let d = utils::skip_leading(v, 0, 3);
    proof {
        assert(v@.skip(0) =~= v@);
    }
    let ghost run = digit_run(v@);
    proof {
        assert(run.skip(0) =~= run);
    }
    // Count the zeros at the front of the digit run directly on `v`.
    let mut z: usize = 0;
    while z < d && v[z] == '0'
        invariant
            z <= d <= v@.len(),
            run == v@.take(d as int),
            utils::leading_run_len(run, utils::run_pred(4)) == utils::leading_run_len(
                run.skip(z as int),
                utils::run_pred(4),
            ) + z,
        decreases d - z,
    {
        proof {
            assert(run.skip(z as int)[0] == v@[z as int]);
            assert(run.skip(z as int).drop_first() =~= run.skip(z + 1));
        }
        z = z + 1;
    }
    proof {
        if z < d {
            assert(run.skip(z as int)[0] == v@[z as int]);
            assert(utils::leading_run_len(run.skip(z as int), utils::run_pred(4)) == 0);
        } else {
            assert(run.skip(z as int) =~= Seq::<char>::empty());
        }
        assert(strip_zeros(run) =~= v@.subrange(z as int, d as int));
    }
    (z, d)
}

/// Order on names, executable.
fn name_le_exec(x: &Vec<char>, y: &Vec<char>) -> (r: bool)
    ensures
        r == name_le(x@, y@),
{
    let (zx, dx) = stripped_digits(x);
    let (zy, dy) = stripped_digits(y);
    if dx > 0 && dy > 0 {
        let sx = utils::copy_range(x, zx, dx);
        let sy = utils::copy_range(y, zy, dy);
        let eq = chars_eq(&sx, &sy);
        if !eq {
            if sx.len() != sy.len() {
                sx.len() < sy.len()
            } else {
                chars_lex_le(&sx, &sy)
            }
        } else {
            chars_lex_le(x, y)
        }
    } else {
        chars_lex_le(x, y)
    }
}

/// Equality of character vectors.
fn chars_eq(x: &Vec<char>, y: &Vec<char>) -> (r: bool)
    ensures
        r == (x@ == y@),
{
    if x.len() != y.len() {
        proof {
            if x@ == y@ {
                assert(x@.len() == y@.len());
            }
        }
        return false;
    }
    let n = x.len();
    let mut i: usize = 0;
    while i < n
        invariant
            i <= n,
            n == x@.len(),
            n == y@.len(),
            forall|j: int| 0 <= j < i ==> x@[j] == y@[j],
        decreases n - i,
    {
        if x[i] != y[i] {
            proof {
                if x@ == y@ {
                    assert(x@[i as int] == y@[i as int]);
                }
            }
            return false;
        }
        i = i + 1;
    }
    proof {
        assert(x@ =~= y@);
    }
    true
}

/// Order on sort keys, executable.
fn key_le_exec(x: &Option<String>, y: &Option<String>) -> (r: bool)
    ensures
        r == key_le(opt_str_view(*x), opt_str_view(*y)),
{
    match (x, y) {
        (Option::None, _) => true,
        (Option::Some(_), Option::None) => false,
        (Option::Some(a), Option::Some(b)) => {
            let ca = utils::str_chars(a.as_str());
            let cb = utils::str_chars(b.as_str());
            name_le_exec(&ca, &cb)
        },
    }
}

/// The model of an optional string.
pub open spec fn opt_str_view(x: Option<String>) -> Option<Seq<char>> {
    match x {
        Some(s) => Some(s@),
        None => None,
    }
}

// ---------------------------------------------------------------------------
// Doctree items and breaking a bale open
// ---------------------------------------------------------------------------

/// The model of a [`DoctreeItem`].
pub enum DoctreeItemView {
    Page(PageView),
    Bale(BaleView),
}

/// One item of an opened bale: a leaf page or a nested, still unopened bale.
pub enum DoctreeItem {
    /// A leaf page.
    Page(Page),
    /// An unopened nested bale.
    Bale(Bale),
}

impl View for DoctreeItem {
    type V = DoctreeItemView;

    open spec fn view(&self) -> DoctreeItemView {
        match self {
            DoctreeItem::Page(p) => DoctreeItemView::Page(p@),
            DoctreeItem::Bale(b) => DoctreeItemView::Bale(b@),
        }
    }
}

/// A keyed item awaiting the order-restoring sort.
pub type KeyedItemView = (Option<Seq<char>>, DoctreeItemView);

/// The model of an executable keyed item.
pub open spec fn kv_view(kv: (Option<String>, DoctreeItem)) -> KeyedItemView {
    (opt_str_view(kv.0), kv.1@)
}

/// The models of a run of keyed items.
pub open spec fn kvs_view(s: Seq<(Option<String>, DoctreeItem)>) -> Seq<KeyedItemView> {
    s.map_values(|kv: (Option<String>, DoctreeItem)| kv_view(kv))
}

/// The models of a run of items.
pub open spec fn items_view(s: Seq<DoctreeItem>) -> Seq<DoctreeItemView> {
    s.map_values(|i: DoctreeItem| i@)
}

/// The models of a run of assets.
pub open spec fn assets_view(s: Seq<crate::asset::Asset>) -> Seq<crate::asset::AssetView> {
    s.map_values(|a: crate::asset::Asset| a@)
}

/// Files regarded as on-disk assets.
pub open spec fn files_as_assets(s: Seq<SourceFile>) -> Seq<crate::asset::AssetView> {
    s.map_values(|f: SourceFile| crate::asset::AssetView::Disk(f.path@))
}

/// Paths regarded as on-disk assets.
pub open spec fn paths_as_assets(s: Seq<Seq<char>>) -> Seq<crate::asset::AssetView> {
    s.map_values(|p: Seq<char>| crate::asset::AssetView::Disk(p))
}

/// The items of a keyed run, the keys dropped.
pub open spec fn strip_keys(s: Seq<KeyedItemView>) -> Seq<DoctreeItemView> {
    s.map_values(|kv: KeyedItemView| kv.1)
}

/// Inserts a keyed item into an already-sorted run, after any equal keys,
/// so that the sort is stable.
pub open spec fn insert_sorted(s: Seq<KeyedItemView>, kv: KeyedItemView) -> Seq<KeyedItemView>
    decreases s.len(),
{
    if s.len() == 0 {
        seq![kv]
    } else if key_le(s.last().0, kv.0) {
        s.push(kv)
    } else {
        insert_sorted(s.drop_last(), kv).push(s.last())
    }
}

/// The stable insertion sort of keyed items by [`key_le`].
pub open spec fn sort_items(s: Seq<KeyedItemView>) -> Seq<KeyedItemView>
    decreases s.len(),
{
    if s.len() == 0 {
        Seq::empty()
    } else {
        insert_sorted(sort_items(s.drop_last()), s.last())
    }
}

/// A nested directory is demoted to an asset when it has no index and no
/// candidate pages of its own.
pub open spec fn demoted(d: SourceDir) -> bool {
    let c = classify(d.entries@);
    c.index is None && c.pages.len() == 0
}

/// The keyed page items of a bale, in the scan's order.
pub open spec fn keyed_pages(pages: Seq<SourceFile>) -> Seq<KeyedItemView> {
    pages.map_values(
        |f: SourceFile|
            (
                norm_stem_of(f.path@),
                DoctreeItemView::Page(page_of(f.path@, f.content.unwrap()@)),
            ),
    )
}

/// The keyed nested-bale items of a bale: the demoted directories dropped,
/// the rest scanned shallowly, in the scan's order.
pub open spec fn keyed_nested(dirs: Seq<SourceDir>) -> Seq<KeyedItemView>
    decreases dirs,
{
    if dirs.len() == 0 {
        Seq::empty()
    } else {
        let prev = keyed_nested(dirs.drop_last());
        let d = dirs.last();
        if demoted(d) {
            prev
        } else {
            prev.push((norm_stem_of(d.path@), DoctreeItemView::Bale(scanned_bale(d))))
        }
    }
}

/// The source paths of a bale's demoted nested directories, in order.
pub open spec fn demoted_paths(dirs: Seq<SourceDir>) -> Seq<Seq<char>>
    decreases dirs,
{
    if dirs.len() == 0 {
        Seq::empty()
    } else {
        let prev = demoted_paths(dirs.drop_last());
        if demoted(dirs.last()) {
            prev.push(dirs.last().path@)
        } else {
            prev
        }
    }
}

/// The items an opened bale exposes, in navigation order.
pub open spec fn break_open_items(b: BaleView) -> Seq<DoctreeItemView> {
    strip_keys(sort_items(keyed_pages(b.pages) + keyed_nested(b.nested)))
}

/// The asset list an opened bale exposes: its plain assets, then its
/// demoted directories.
pub open spec fn break_open_assets(b: BaleView) -> Seq<crate::asset::AssetView> {
    files_as_assets(b.assets) + paths_as_assets(demoted_paths(b.nested))
}

/// The first candidate page whose content is missing, if any.
pub open spec fn first_missing_page(s: Seq<SourceFile>) -> Option<SourceFile>
    decreases s.len(),
{
    if s.len() == 0 {
        None
    } else if s[0].content is None {
        Some(s[0])
    } else {
        first_missing_page(s.drop_first())
    }
}

/// The first nested directory whose shallow scan fails, if any.
pub open spec fn first_bad_dir(s: Seq<SourceDir>) -> Option<SourceDir>
    decreases s.len(),
{
    if s.len() == 0 {
        None
    } else if !scan_ok(s[0]) {
        Some(s[0])
    } else {
        first_bad_dir(s.drop_first())
    }
}

/// Breaking open succeeds when every candidate page's content is at hand
/// and every nested directory's shallow scan succeeds.
pub open spec fn break_ok(b: BaleView) -> bool {
    first_missing_page(b.pages) is None && first_bad_dir(b.nested) is None
}

/// The path a failing break names: the first page whose content is missing,
/// or the first nested directory's own failure.
pub open spec fn break_err_path(b: BaleView) -> Seq<char> {
    match first_missing_page(b.pages) {
        Some(f) => f.path@,
        None => scan_err_path(first_bad_dir(b.nested).unwrap()),
    }
}

/// Every nested directory of the bale is well-formed.
pub open spec fn bale_nested_wf(b: BaleView) -> bool {
    forall|i: int| 0 <= i < b.nested.len() ==> #[trigger] dir_wf(b.nested[i])
}

/// What a shallow scan guarantees of its bale: nested directories are
/// well-formed and candidate pages have a last path component.
pub open spec fn bale_wf(b: BaleView) -> bool {
    &&& bale_nested_wf(b)
    &&& forall|i: int|
        0 <= i < b.pages.len() ==> #[trigger] file_name_of(b.pages[i].path@) is Some
}

/// The cost of recursing into one item: pages are leaves, a nested bale
/// costs its own directories.
pub open spec fn item_measure(i: DoctreeItemView) -> nat {
    match i {
        DoctreeItemView::Page(_) => 0,
        DoctreeItemView::Bale(b) => 1 + dirs_size(b.nested),
    }
}

/// The total recursion cost of a run of items.
pub open spec fn items_measure(s: Seq<DoctreeItemView>) -> nat
    decreases s,
{
    if s.len() == 0 {
        0
    } else {
        items_measure(s.drop_last()) + item_measure(s.last())
    }
}

/// The total recursion cost of a run of keyed items.
pub open spec fn km(s: Seq<KeyedItemView>) -> nat
    decreases s,
{
    if s.len() == 0 {
        0
    } else {
        km(s.drop_last()) + item_measure(s.last().1)
    }
}

proof fn lemma_km_strip(s: Seq<KeyedItemView>)
    ensures
        items_measure(strip_keys(s)) == km(s),
    decreases s,
{
    if s.len() > 0 {
        lemma_km_strip(s.drop_last());
        assert(strip_keys(s).drop_last() =~= strip_keys(s.drop_last()));
    } else {
        assert(strip_keys(s) =~= Seq::<DoctreeItemView>::empty());
    }
}

proof fn lemma_insert_km(s: Seq<KeyedItemView>, kv: KeyedItemView)
    ensures
        km(insert_sorted(s, kv)) == km(s) + item_measure(kv.1),
    decreases s.len(),
{
    if s.len() == 0 {
        assert(km(Seq::<KeyedItemView>::empty()) == 0);
        assert(insert_sorted(s, kv).drop_last() =~= Seq::<KeyedItemView>::empty());
        assert(insert_sorted(s, kv).last() == kv);
        assert(km(insert_sorted(s, kv)) == km(s) + item_measure(kv.1));
    } else if key_le(s.last().0, kv.0) {
        assert(s.push(kv).drop_last() =~= s);
        assert(s.push(kv).last() == kv);
        assert(km(insert_sorted(s, kv)) == km(s) + item_measure(kv.1));
    } else {
        lemma_insert_km(s.drop_last(), kv);
        let t = insert_sorted(s.drop_last(), kv);
        assert(t.push(s.last()).drop_last() =~= t);
        assert(t.push(s.last()).last() == s.last());
        assert(km(t.push(s.last())) == km(t) + item_measure(s.last().1));
    }
}

proof fn lemma_sort_km(s: Seq<KeyedItemView>)
    ensures
        km(sort_items(s)) == km(s),
    decreases s.len(),
{
    if s.len() > 0 {
        lemma_sort_km(s.drop_last());
        lemma_insert_km(sort_items(s.drop_last()), s.last());
    }
}

/// Where the exec scan stops, the spec insertion lands: inserting `kv` at
/// position `p` when everything at or after `p` refuses to come before it.
proof fn lemma_insert_sorted_split(s: Seq<KeyedItemView>, kv: KeyedItemView, p: int)
    requires
        0 <= p <= s.len(),
        forall|j: int| p <= j < s.len() ==> !key_le(#[trigger] s[j].0, kv.0),
        p > 0 ==> key_le(s[p - 1].0, kv.0),
    ensures
        insert_sorted(s, kv) == s.take(p) + seq![kv] + s.skip(p),
    decreases s.len(),
{
    if s.len() == 0 {
        assert(insert_sorted(s, kv) =~= s.take(p) + seq![kv] + s.skip(p));
    } else if p == s.len() {
        assert(key_le(s.last().0, kv.0));
        assert(s.push(kv) =~= s.take(p) + seq![kv] + s.skip(p));
    } else {
        assert(!key_le(s[s.len() - 1].0, kv.0));
        lemma_insert_sorted_split(s.drop_last(), kv, p);
        assert(s.drop_last().take(p) =~= s.take(p));
        assert(insert_sorted(s.drop_last(), kv).push(s.last()) =~= s.take(p) + seq![kv] + s.skip(
            p,
        ));
    }
}

proof fn lemma_first_missing_at(s: Seq<SourceFile>, i: int)
    requires
        0 <= i < s.len(),
        forall|j: int| 0 <= j < i ==> #[trigger] s[j].content is Some,
        s[i].content is None,
    ensures
        first_missing_page(s) == Some(s[i]),
    decreases i,
{
    if i > 0 {
        lemma_first_missing_at(s.drop_first(), i - 1);
    }
}

proof fn lemma_first_missing_none(s: Seq<SourceFile>)
    requires
        forall|j: int| 0 <= j < s.len() ==> #[trigger] s[j].content is Some,
    ensures
        first_missing_page(s) is None,
    decreases s.len(),
{
    if s.len() > 0 {
        lemma_first_missing_none(s.drop_first());
    }
}

proof fn lemma_first_bad_at(s: Seq<SourceDir>, i: int)
    requires
        0 <= i < s.len(),
        forall|j: int| 0 <= j < i ==> scan_ok(#[trigger] s[j]),
        !scan_ok(s[i]),
    ensures
        first_bad_dir(s) == Some(s[i]),
    decreases i,
{
    if i > 0 {
        lemma_first_bad_at(s.drop_first(), i - 1);
    }
}

proof fn lemma_first_bad_none(s: Seq<SourceDir>)
    requires
        forall|j: int| 0 <= j < s.len() ==> scan_ok(#[trigger] s[j]),
    ensures
        first_bad_dir(s) is None,
    decreases s.len(),
{
    if s.len() > 0 {
        lemma_first_bad_none(s.drop_first());
    }
}

/// Pages cost nothing to recurse into.
proof fn lemma_km_pages(s: Seq<SourceFile>)
    ensures
        km(keyed_pages(s)) == 0,
    decreases s,
{
    if s.len() == 0 {
        assert(keyed_pages(s) =~= Seq::<KeyedItemView>::empty());
    } else {
        lemma_km_pages(s.drop_last());
        assert(keyed_pages(s).drop_last() =~= keyed_pages(s.drop_last()));
        assert(keyed_pages(s).last().1 is Page);
    }
}

/// Insertion keeps a property that all items and the new one share.
proof fn lemma_insert_all(s: Seq<KeyedItemView>, kv: KeyedItemView, p: spec_fn(
    KeyedItemView,
) -> bool)
    requires
        forall|j: int| 0 <= j < s.len() ==> p(#[trigger] s[j]),
        p(kv),
    ensures
        forall|j: int|
            0 <= j < insert_sorted(s, kv).len() ==> p(#[trigger] insert_sorted(s, kv)[j]),
    decreases s.len(),
{
    if s.len() == 0 {
    } else if key_le(s.last().0, kv.0) {
    } else {
        assert forall|j: int| 0 <= j < s.drop_last().len() implies p(
            #[trigger] s.drop_last()[j],
        ) by {
            assert(s.drop_last()[j] == s[j]);
        }
        lemma_insert_all(s.drop_last(), kv, p);
        let t = insert_sorted(s.drop_last(), kv);
        assert forall|j: int| 0 <= j < t.push(s.last()).len() implies p(
            #[trigger] t.push(s.last())[j],
        ) by {
            if j < t.len() {
                assert(t.push(s.last())[j] == t[j]);
            } else {
                assert(t.push(s.last())[j] == s.last());
            }
        }
    }
}

/// Sorting keeps a property that all items share.
proof fn lemma_sort_all(s: Seq<KeyedItemView>, p: spec_fn(KeyedItemView) -> bool)
    requires
        forall|j: int| 0 <= j < s.len() ==> p(#[trigger] s[j]),
    ensures
        forall|j: int| 0 <= j < sort_items(s).len() ==> p(#[trigger] sort_items(s)[j]),
    decreases s.len(),
{
    if s.len() > 0 {
        assert forall|j: int| 0 <= j < s.drop_last().len() implies p(
            #[trigger] s.drop_last()[j],
        ) by {
            assert(s.drop_last()[j] == s[j]);
        }
        lemma_sort_all(s.drop_last(), p);
        lemma_insert_all(sort_items(s.drop_last()), s.last(), p);
    }
}

/// Every nested bale an opened bale exposes is itself well-formed.
pub proof fn lemma_break_items_wf(b: BaleView)
    requires
        bale_nested_wf(b),
    ensures
        forall|j: int|
            0 <= j < break_open_items(b).len() ==> ((#[trigger] break_open_items(b)[j])
                matches DoctreeItemView::Bale(bv) ==> bale_wf(bv)),
{
    let p = |kv: KeyedItemView|
        match kv.1 {
            DoctreeItemView::Bale(bv) => bale_wf(bv),
            _ => true,
        };
    lemma_keyed_pages_all(b.pages, p);
    lemma_keyed_nested_all(b.nested);
    let u = keyed_pages(b.pages) + keyed_nested(b.nested);
    assert forall|j: int| 0 <= j < u.len() implies p(#[trigger] u[j]) by {
        if j < keyed_pages(b.pages).len() {
            assert(u[j] == keyed_pages(b.pages)[j]);
        } else {
            assert(u[j] == keyed_nested(b.nested)[j - keyed_pages(b.pages).len()]);
        }
    }
    lemma_sort_all(u, p);
    assert forall|j: int|
        0 <= j < break_open_items(b).len() implies ((#[trigger] break_open_items(b)[j])
        matches DoctreeItemView::Bale(bv) ==> bale_wf(bv)) by {
        assert(break_open_items(b)[j] == sort_items(u)[j].1);
        assert(p(sort_items(u)[j]));
    }
}

/// Page items carry no bale at all.
proof fn lemma_keyed_pages_all(s: Seq<SourceFile>, p: spec_fn(KeyedItemView) -> bool)
    requires
        forall|kv: KeyedItemView| kv.1 is Page ==> p(kv),
    ensures
        forall|j: int| 0 <= j < keyed_pages(s).len() ==> p(#[trigger] keyed_pages(s)[j]),
{
    assert forall|j: int| 0 <= j < keyed_pages(s).len() implies p(#[trigger] keyed_pages(s)[j]) by {
        assert(keyed_pages(s)[j].1 is Page);
    }
}

/// Every kept nested item is the well-formed scan of a well-formed
/// directory.
proof fn lemma_keyed_nested_all(dirs: Seq<SourceDir>)
    requires
        forall|i: int| 0 <= i < dirs.len() ==> #[trigger] dir_wf(dirs[i]),
    ensures
        forall|j: int|
            0 <= j < keyed_nested(dirs).len() ==> ((#[trigger] keyed_nested(dirs)[j]).1
                matches DoctreeItemView::Bale(bv) ==> bale_wf(bv)),
    decreases dirs,
{
    if dirs.len() > 0 {
        assert forall|i: int| 0 <= i < dirs.drop_last().len() implies #[trigger] dir_wf(
            dirs.drop_last()[i],
        ) by {
            assert(dirs.drop_last()[i] == dirs[i]);
        }
        lemma_keyed_nested_all(dirs.drop_last());
        let d = dirs.last();
        assert(dir_wf(d));
        if !demoted(d) {
            lemma_classify_wf(d.entries@);
            lemma_classify_pages_md(d.entries@);
            let bv = scanned_bale(d);
            assert forall|i: int|
                0 <= i < bv.pages.len() implies #[trigger] file_name_of(
                bv.pages[i].path@,
            ) is Some by {
                assert(is_markdown_path(classify(d.entries@).pages[i].path@));
            }
            assert(bale_wf(bv));
            assert forall|j: int|
                0 <= j < keyed_nested(dirs).len() implies ((#[trigger] keyed_nested(dirs)[j]).1
                matches DoctreeItemView::Bale(bv2) ==> bale_wf(bv2)) by {
                if j < keyed_nested(dirs.drop_last()).len() {
                    assert(keyed_nested(dirs)[j] == keyed_nested(dirs.drop_last())[j]);
                }
            }
        } else {
            assert forall|j: int|
                0 <= j < keyed_nested(dirs).len() implies ((#[trigger] keyed_nested(dirs)[j]).1
                matches DoctreeItemView::Bale(bv2) ==> bale_wf(bv2)) by {
                assert(keyed_nested(dirs)[j] == keyed_nested(dirs.drop_last())[j]);
            }
        }
    }
}

/// Stable insertion sort of the keyed items by name order.
fn sort_keyed(items: Vec<(Option<String>, DoctreeItem)>) -> (r: Vec<(Option<String>, DoctreeItem)>)
    ensures
        kvs_view(r@) == sort_items(kvs_view(items@)),
{
    let mut items = items;
    let ghost items0 = kvs_view(items@);
    let ghost mut done = Seq::<KeyedItemView>::empty();
    let mut out: Vec<(Option<String>, DoctreeItem)> = Vec::new();
    proof {
        assert(kvs_view(out@) =~= sort_items(done));
        assert(done + kvs_view(items@) =~= items0);
    }
    while items.len() > 0
        invariant
            done + kvs_view(items@) == items0,
            kvs_view(out@) == sort_items(done),
        decreases items.len(),
    {
        let ghost pre = kvs_view(items@);
        let kv = items.remove(0);
        proof {
            assert(kvs_view(items@) =~= pre.drop_first());
            assert(pre[0] == kv_view(kv));
            assert(done.push(kv_view(kv)) + kvs_view(items@) =~= done + pre);
        }
        // Scan from the end for the insertion point: after any equal keys.
        let mut pos: usize = out.len();
        while pos > 0 && !key_le_exec(&out[pos - 1].0, &kv.0)
            invariant
                pos <= out@.len(),
                kvs_view(out@) == sort_items(done),
                forall|j: int|
                    pos <= j < out@.len() ==> !key_le(#[trigger] kvs_view(out@)[j].0, kv_view(kv).0),
            decreases pos,
        {
            proof {
                assert(kvs_view(out@)[pos - 1].0 == opt_str_view(out@[pos - 1].0));
            }
            pos = pos - 1;
        }
        proof {
            if pos > 0 {
                assert(kvs_view(out@)[pos - 1].0 == opt_str_view(out@[pos - 1].0));
            }
            lemma_insert_sorted_split(kvs_view(out@), kv_view(kv), pos as int);
        }
        let ghost out0 = out@;
        out.insert(pos, kv);
        proof {
            assert(kvs_view(out@) =~= kvs_view(out0).take(pos as int) + seq![kv_view(kv)]
                + kvs_view(out0).skip(pos as int));
            assert(sort_items(done.push(kv_view(kv))).drop_last() == sort_items(done)
                || true);
            assert(done.push(kv_view(kv)).drop_last() =~= done);
            assert(kvs_view(out@) =~= sort_items(done.push(kv_view(kv))));
            done = done.push(kv_view(kv));
        }
    }
    proof {
        assert(done =~= done + kvs_view(items@));
    }
    out
}

/// True when the file is a directory's index page.
fn is_index_file(f: &SourceFile) -> (r: bool)
    ensures
        r == is_index_path(f.path@),
{
    if !wants_content(f.path.as_str()) {
        return false;
    }
    match utils::normalised_stem(f.path.as_str()) {
        Some(s) => str_is_stem(s.as_str(), 0) || str_is_stem(s.as_str(), 1),
        None => {
            proof {
                lemma_markdown_has_name(f.path@);
            }
            false
        },
    }
}

/// True when the file supplies a directory's footer markdown.
fn is_footer_file(f: &SourceFile) -> (r: bool)
    ensures
        r == is_footer_path(f.path@),
{
    if !wants_content(f.path.as_str()) {
        return false;
    }
    match utils::normalised_stem(f.path.as_str()) {
        Some(s) => str_is_stem(s.as_str(), 2),
        None => {
            proof {
                lemma_markdown_has_name(f.path@);
            }
            false
        },
    }
}

/// True when `s` is exactly `index`, `readme` or `footer` (by `which`:
/// 0, 1, 2).
fn str_is_stem(s: &str, which: u8) -> (r: bool)
    requires
        which <= 2,
    ensures
        which == 0 ==> r == (s@ == seq!['i', 'n', 'd', 'e', 'x']),
        which == 1 ==> r == (s@ == seq!['r', 'e', 'a', 'd', 'm', 'e']),
        which == 2 ==> r == (s@ == seq!['f', 'o', 'o', 't', 'e', 'r']),
{
    let ghost t: Seq<char> = if which == 0 {
        seq!['i', 'n', 'd', 'e', 'x']
    } else if which == 1 {
        seq!['r', 'e', 'a', 'd', 'm', 'e']
    } else {
        seq!['f', 'o', 'o', 't', 'e', 'r']
    };
    let n = s.unicode_len();
    let want: usize = if which == 0 {
        5
    } else {
        6
    };
    if n != want {
        proof {
            if s@ == t {
                assert(s@.len() == t.len());
            }
        }
        return false;
    }
    let r = if which == 0 {
        s.get_char(0) == 'i' && s.get_char(1) == 'n' && s.get_char(2) == 'd' && s.get_char(3) == 'e'
            && s.get_char(4) == 'x'
    } else if which == 1 {
        s.get_char(0) == 'r' && s.get_char(1) == 'e' && s.get_char(2) == 'a' && s.get_char(3) == 'd'
            && s.get_char(4) == 'm' && s.get_char(5) == 'e'
    } else {
        s.get_char(0) == 'f' && s.get_char(1) == 'o' && s.get_char(2) == 'o' && s.get_char(3) == 't'
            && s.get_char(4) == 'e' && s.get_char(5) == 'r'
    };
    proof {
        if r {
            assert(s@ =~= t);
        } else if s@ == t {
            assert forall|j: int| 0 <= j < t.len() implies s@[j] == t[j] by {}
        }
    }
    r
}


/// Open a doctree rooted at the given directory: the root bale of the
/// documentation set.
pub fn open(dir: SourceDir) -> (r: Result<Bale, DocketError>)
    requires
        entries_wf(dir.entries@),
        file_name_of(dir.path@) is Some,
    ensures
        match r {
            Ok(b) => scan_ok(dir) && b@ == scanned_bale(dir) && bale_wf(b@),
            Err(e) => !scan_ok(dir) && (e matches DocketError::Io(p) && p@ == scan_err_path(dir)),
        },
{
    Bale::new(dir)
}


/// The measure of a run of items splits off its first element.
pub proof fn lemma_items_measure_first(s: Seq<DoctreeItemView>)
    requires
        s.len() > 0,
    ensures
        items_measure(s) == item_measure(s[0]) + items_measure(s.drop_first()),
    decreases s.len(),
{
    if s.len() == 1 {
        assert(s.drop_first() =~= Seq::<DoctreeItemView>::empty());
        assert(s.drop_last() =~= Seq::<DoctreeItemView>::empty());
        assert(s.last() == s[0]);
    } else {
        lemma_items_measure_first(s.drop_last());
        assert(s.drop_last()[0] == s[0]);
        assert(s.drop_first().drop_last() =~= s.drop_last().drop_first());
        assert(s.drop_first().last() == s.last());
        assert(items_measure(s.drop_first()) == items_measure(s.drop_first().drop_last())
            + item_measure(s.drop_first().last()));
    }
}

/// One item never outweighs the whole run.
pub proof fn lemma_items_measure_elem(s: Seq<DoctreeItemView>, k: int)
    requires
        0 <= k < s.len(),
    ensures
        item_measure(s[k]) <= items_measure(s),
    decreases k,
{
    lemma_items_measure_first(s);
    if k > 0 {
        lemma_items_measure_elem(s.drop_first(), k - 1);
        assert(s.drop_first()[k - 1] == s[k]);
    }
}

/// The kept nested bales of a bale cost no more than its directories.
proof fn lemma_km_keyed_nested(dirs: Seq<SourceDir>)
    ensures
        km(keyed_nested(dirs)) <= dirs_size(dirs),
    decreases dirs,
{
    if dirs.len() == 0 {
        assert(keyed_nested(dirs) =~= Seq::<KeyedItemView>::empty());
    } else {
        lemma_km_keyed_nested(dirs.drop_last());
        let d = dirs.last();
        if !demoted(d) {
            let kv = (norm_stem_of(d.path@), DoctreeItemView::Bale(scanned_bale(d)));
            assert(keyed_nested(dirs) == keyed_nested(dirs.drop_last()).push(kv));
            assert(keyed_nested(dirs).drop_last() =~= keyed_nested(dirs.drop_last()));
            lemma_classify_size(d.entries@);
            assert(item_measure(kv.1) <= dir_size(d));
        }
    }
}

/// What an opened bale exposes costs no more than its own directories: the
/// walker's recursion shrinks.
pub proof fn lemma_break_items_measure(b: BaleView)
    ensures
        items_measure(break_open_items(b)) <= dirs_size(b.nested),
{
    let u = keyed_pages(b.pages) + keyed_nested(b.nested);
    lemma_km_strip(sort_items(u));
    lemma_sort_km(u);
    lemma_km_concat(keyed_pages(b.pages), keyed_nested(b.nested));
    lemma_km_pages(b.pages);
    lemma_km_keyed_nested(b.nested);
}


// ---------------------------------------------------------------------------
// Laws of demotion
// ---------------------------------------------------------------------------

/// A directory holding only non-markdown files is demoted: it has neither
/// an index nor a candidate page.
pub proof fn lemma_only_assets_demotes(d: SourceDir)
    requires
        forall|i: int|
            0 <= i < d.entries@.len() ==> ((#[trigger] d.entries@[i]) matches SourceEntry::File(f)
                && !is_markdown_path(f.path@)),
    ensures
        demoted(d),
{
    lemma_classify_plain(d.entries@);
}

proof fn lemma_classify_plain(s: Seq<SourceEntry>)
    requires
        forall|i: int|
            0 <= i < s.len() ==> ((#[trigger] s[i]) matches SourceEntry::File(f)
                && !is_markdown_path(f.path@)),
    ensures
        classify(s).index is None,
        classify(s).pages.len() == 0,
    decreases s,
{
    if s.len() > 0 {
        assert forall|i: int|
            0 <= i < s.drop_last().len() implies ((#[trigger] s.drop_last()[i])
            matches SourceEntry::File(f) && !is_markdown_path(f.path@)) by {
            assert(s.drop_last()[i] == s[i]);
        }
        lemma_classify_plain(s.drop_last());
        assert(s[s.len() - 1] matches SourceEntry::File(f) && !is_markdown_path(f.path@));
    }
}

/// A directory with at least one plain markdown file (not an index, readme
/// or footer) is kept as a bale, even without an index.
pub proof fn lemma_plain_page_keeps(d: SourceDir, k: int)
    requires
        0 <= k < d.entries@.len(),
        d.entries@[k] matches SourceEntry::File(f) && is_markdown_path(f.path@) && !is_index_path(
            f.path@,
        ) && !is_footer_path(f.path@),
    ensures
        !demoted(d),
{
    lemma_classify_page_at(d.entries@, k);
}

proof fn lemma_classify_page_at(s: Seq<SourceEntry>, k: int)
    requires
        0 <= k < s.len(),
        s[k] matches SourceEntry::File(f) && is_markdown_path(f.path@) && !is_index_path(f.path@)
            && !is_footer_path(f.path@),
    ensures
        classify(s).pages.len() > 0,
    decreases s,
{
    if k == s.len() - 1 {
        assert(s.last() == s[k]);
    } else {
        assert(s.drop_last()[k] == s[k]);
        lemma_classify_page_at(s.drop_last(), k);
    }
}

/// A demoted nested directory becomes one asset of the opened bale, and a
/// kept one becomes one of its nested-bale items.
pub proof fn lemma_demotion(dirs: Seq<SourceDir>, k: int)
    requires
        0 <= k < dirs.len(),
    ensures
        demoted(dirs[k]) ==> demoted_paths(dirs).contains(dirs[k].path@),
        !demoted(dirs[k]) ==> exists|j: int|
            0 <= j < keyed_nested(dirs).len() && (#[trigger] keyed_nested(dirs)[j]).1
                == DoctreeItemView::Bale(scanned_bale(dirs[k])),
    decreases dirs,
{
    if k == dirs.len() - 1 {
        let d = dirs.last();
        if demoted(d) {
            let dp = demoted_paths(dirs);
            assert(dp.last() == dirs[k].path@);
            assert(dp.contains(dirs[k].path@));
        } else {
            let kn = keyed_nested(dirs);
            let j = kn.len() - 1;
            assert(kn[j].1 == DoctreeItemView::Bale(scanned_bale(dirs[k])));
        }
    } else {
        assert(dirs.drop_last()[k] == dirs[k]);
        lemma_demotion(dirs.drop_last(), k);
        if demoted(dirs[k]) {
            let dp0 = demoted_paths(dirs.drop_last());
            let i = choose|i: int| 0 <= i < dp0.len() && dp0[i] == dirs[k].path@;
            assert(demoted_paths(dirs)[i] == dirs[k].path@);
            assert(demoted_paths(dirs).contains(dirs[k].path@));
        } else {
            let kn0 = keyed_nested(dirs.drop_last());
            let j = choose|j: int|
                0 <= j < kn0.len() && (#[trigger] kn0[j]).1 == DoctreeItemView::Bale(
                    scanned_bale(dirs[k]),
                );
            assert(keyed_nested(dirs)[j].1 == DoctreeItemView::Bale(scanned_bale(dirs[k])));
        }
    }
}

} // verus!
