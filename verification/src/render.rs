//! The render walker.
//!
//! The walker performs the depth-first, pre-order traversal of an opened
//! bale tree and plans everything the embedding binary must do to produce
//! the site: create output directories, render pages, and copy assets. Each
//! page render carries the navigation context the layout needs — the bale's
//! title and footer, the navigation entries of the bale's items, and the
//! chain of ancestor titles for breadcrumbs.
//!
//! The walker itself performs no I/O: it returns the ordered list of
//! [`RenderOp`]s, together with the error that aborted the walk if a nested
//! bale could not be broken open. Operations planned before the failure
//! stand, so a failing walk still describes the partially-written output
//! tree that an aborted render leaves behind.

use vstd::prelude::*;

use crate::asset::{Asset, AssetView};
use crate::doctree::{
    Bale, BaleView, DoctreeItem, DoctreeItemView, bale_wf, break_ok, break_open_assets,
    break_open_items, dirs_size, item_measure, items_measure, items_view,
};
use crate::doctree::{Frontispiece, FrontispieceView, Page, PageView};
use crate::error::DocketError;

verus! {

// ---------------------------------------------------------------------------
// Navigation data
// ---------------------------------------------------------------------------

/// The model of a [`NavInfo`].
pub struct NavView {
    pub slug: Seq<char>,
    pub title: Seq<char>,
}

/// An entry in the navigation tree: a slug to link with and a title to show.
pub struct NavInfo {
    /// The slug to use when constructing a URI.
    pub slug: String,
    /// The title of the item.
    pub title: String,
}

impl View for NavInfo {
    type V = NavView;

    open spec fn view(&self) -> NavView {
        NavView { slug: self.slug@, title: self.title@ }
    }
}

impl NavInfo {
    /// A navigation entry for the given slug and title.
    pub fn new(slug: &str, title: &str) -> (r: NavInfo)
        ensures
            r@ == (NavView { slug: slug@, title: title@ }),
    {
        NavInfo { slug: slug.to_owned(), title: title.to_owned() }
    }
}

/// The models of a run of navigation entries.
pub open spec fn navs_view(s: Seq<NavInfo>) -> Seq<NavView> {
    s.map_values(|n: NavInfo| n@)
}

/// The navigation entry each item contributes.
pub open spec fn nav_of_item(i: DoctreeItemView) -> NavView {
    match i {
        DoctreeItemView::Page(p) => NavView { slug: p.slug, title: p.title },
        DoctreeItemView::Bale(b) => NavView {
            slug: b.frontispiece.slug,
            title: b.frontispiece.title,
        },
    }
}

/// The navigation entries of a bale's items, in their sorted order.
pub open spec fn navs_of(items: Seq<DoctreeItemView>) -> Seq<NavView> {
    items.map_values(|i: DoctreeItemView| nav_of_item(i))
}

/// The navigation entries for the given items.
pub fn navs_for_items(items: &Vec<DoctreeItem>) -> (r: Vec<NavInfo>)
    ensures
        navs_view(r@) == navs_of(items_view(items@)),
{
    let mut out: Vec<NavInfo> = Vec::new();
    let n = items.len();
    proof {
        assert(navs_view(out@) =~= navs_of(items_view(items@.take(0))));
    }
    let mut i: usize = 0;
    while i < n
        invariant
            i <= n,
            n == items@.len(),
            navs_view(out@) == navs_of(items_view(items@.take(i as int))),
        decreases n - i,
    {
        let ghost out0 = out@;
        let nav = match &items[i] {
            DoctreeItem::Page(page) => NavInfo::new(page.slug().as_str(), page.title().as_str()),
            DoctreeItem::Bale(bale) => NavInfo::new(
                bale.frontispiece().slug().as_str(),
                bale.frontispiece().title().as_str(),
            ),
        };
        let ghost gnav = nav;
        out.push(nav);
        proof {
            assert(navs_view(out@) =~= navs_view(out0).push(gnav@));
            assert(items_view(items@.take(i + 1)) =~= items_view(items@.take(i as int)).push(
                items@[i as int]@,
            ));
            assert(navs_of(items_view(items@.take(i + 1))) =~= navs_of(
                items_view(items@.take(i as int)),
            ).push(nav_of_item(items@[i as int]@)));
        }
        i = i + 1;
    }
    proof {
        assert(items@.take(n as int) =~= items@);
    }
    out
}

/// Duplicate a run of navigation entries for one more page context.
fn clone_navs(navs: &Vec<NavInfo>) -> (r: Vec<NavInfo>)
    ensures
        navs_view(r@) == navs_view(navs@),
{
    let mut out: Vec<NavInfo> = Vec::new();
    let n = navs.len();
    let mut i: usize = 0;
    while i < n
        invariant
            i <= n,
            n == navs@.len(),
            navs_view(out@) == navs_view(navs@.take(i as int)),
        decreases n - i,
    {
        let ghost out0 = out@;
        let nav = NavInfo::new(navs[i].slug.as_str(), navs[i].title.as_str());
        out.push(nav);
        proof {
            assert(navs_view(out@) =~= navs_view(out0).push(navs@[i as int]@));
            assert(navs_view(navs@.take(i + 1)) =~= navs_view(navs@.take(i as int)).push(
                navs@[i as int]@,
            ));
        }
        i = i + 1;
    }
    proof {
        assert(navs@.take(n as int) =~= navs@);
        assert(navs_view(out@) =~= navs_view(navs@));
    }
    out
}

/// The models of a run of title strings.
pub open spec fn titles_view(s: Seq<String>) -> Seq<Seq<char>> {
    s.map_values(|t: String| t@)
}

/// Duplicate the breadcrumb title chain for one more page context.
fn clone_titles(titles: &Vec<String>) -> (r: Vec<String>)
    ensures
        titles_view(r@) == titles_view(titles@),
{
    let mut out: Vec<String> = Vec::new();
    let n = titles.len();
    let mut i: usize = 0;
    while i < n
        invariant
            i <= n,
            n == titles@.len(),
            titles_view(out@) == titles_view(titles@.take(i as int)),
        decreases n - i,
    {
        let ghost out0 = out@;
        let t = titles[i].clone();
        out.push(t);
        proof {
            assert(titles_view(out@) =~= titles_view(out0).push(titles@[i as int]@));
            assert(titles_view(titles@.take(i + 1)) =~= titles_view(titles@.take(i as int)).push(
                titles@[i as int]@,
            ));
        }
        i = i + 1;
    }
    proof {
        assert(titles@.take(n as int) =~= titles@);
        assert(titles_view(out@) =~= titles_view(titles@));
    }
    out
}

// ---------------------------------------------------------------------------
// Render operations
// ---------------------------------------------------------------------------

/// Kind of page being rendered: an index page sits at its bale's own root,
/// a nested page one directory deeper.
pub enum PageKind {
    /// An index page.
    Index,
    /// A nested page with the given slug.
    Nested(String),
}

/// The model of a [`PageKind`].
pub enum PageKindView {
    Index,
    Nested(Seq<char>),
}

impl View for PageKind {
    type V = PageKindView;

    open spec fn view(&self) -> PageKindView {
        match self {
            PageKind::Index => PageKindView::Index,
            PageKind::Nested(s) => PageKindView::Nested(s@),
        }
    }
}

impl PageKind {
    /// The relative path from this page's directory to its bale's root.
    pub fn path_to_bale(&self) -> (r: &'static str)
        ensures
            self is Index ==> r@ == seq!['.', '/'],
            self is Nested ==> r@ == seq!['.', '.', '/'],
    {
        match self {
            PageKind::Index => {
                let r = "./";
                proof {
                    reveal_strlit("./");
                    assert(r@ =~= seq!['.', '/']);
                }
                r
            },
            PageKind::Nested(_) => {
                let r = "../";
                proof {
                    reveal_strlit("../");
                    assert(r@ =~= seq!['.', '.', '/']);
                }
                r
            },
        }
    }
}

/// The model of a [`PageContext`].
pub struct PageContextView {
    pub site_name: Seq<char>,
    pub bale_title: Seq<char>,
    pub footer: Option<Seq<char>>,
    pub navs: Seq<NavView>,
    pub crumb_titles: Seq<Seq<char>>,
}

/// Everything the layout needs besides the page itself: the site name, the
/// owning bale's title and rendered footer, the bale's navigation entries,
/// and the chain of titles from the site root down to the owning bale (one
/// breadcrumb each, the site name first).
pub struct PageContext {
    pub site_name: String,
    pub bale_title: String,
    pub footer: Option<String>,
    pub navs: Vec<NavInfo>,
    pub crumb_titles: Vec<String>,
}

impl View for PageContext {
    type V = PageContextView;

    open spec fn view(&self) -> PageContextView {
        PageContextView {
            site_name: self.site_name@,
            bale_title: self.bale_title@,
            footer: match &self.footer {
                Some(f) => Some(f@),
                None => None,
            },
            navs: navs_view(self.navs@),
            crumb_titles: titles_view(self.crumb_titles@),
        }
    }
}

/// The model of a [`RenderOp`].
pub enum RenderOpView {
    EnsureDir(Seq<char>),
    CopyAsset(AssetView, Seq<char>),
    WritePage(Seq<char>, PageKindView, PageView, PageContextView),
}

/// One step of the render: create a directory (a no-op when it exists),
/// copy one asset into a directory, or render one page as `index.html` of a
/// directory.
pub enum RenderOp {
    /// Create this output directory and any missing parents.
    EnsureDir(String),
    /// Copy the asset into the directory.
    CopyAsset(Asset, String),
    /// Render the page into `dir/index.html` with the given context.
    WritePage(String, PageKind, Page, PageContext),
}

impl View for RenderOp {
    type V = RenderOpView;

    open spec fn view(&self) -> RenderOpView {
        match self {
            RenderOp::EnsureDir(d) => RenderOpView::EnsureDir(d@),
            RenderOp::CopyAsset(a, d) => RenderOpView::CopyAsset(a@, d@),
            RenderOp::WritePage(d, k, p, c) => RenderOpView::WritePage(d@, k@, p@, c@),
        }
    }
}

/// The models of a run of render operations.
pub open spec fn ops_view(s: Seq<RenderOp>) -> Seq<RenderOpView> {
    s.map_values(|o: RenderOp| o@)
}

// ---------------------------------------------------------------------------
// The plan
// ---------------------------------------------------------------------------

/// A path one level below `dir`.
pub open spec fn join_dir(dir: Seq<char>, slug: Seq<char>) -> Seq<char> {
    dir + seq!['/'] + slug
}

/// A path one level below `dir`, executable.
pub fn join_path(dir: &str, slug: &str) -> (r: String)
    ensures
        r@ == join_dir(dir@, slug@),
{
    let mut out = dir.to_owned();
    let sep = "/";
    proof {
        reveal_strlit("/");
        assert(sep@ =~= seq!['/']);
    }
    out.append(sep);
    out.append(slug);
    out
}

/// The page context every page of one bale is rendered with.
pub open spec fn context_of(
    site: Seq<char>,
    fp: FrontispieceView,
    navs: Seq<NavView>,
    crumbs: Seq<Seq<char>>,
) -> PageContextView {
    PageContextView {
        site_name: site,
        bale_title: fp.title,
        footer: fp.footer,
        navs,
        crumb_titles: crumbs,
    }
}

/// The render of a bale's index page, if it has one.
pub open spec fn index_ops(
    site: Seq<char>,
    dir: Seq<char>,
    crumbs: Seq<Seq<char>>,
    fp: FrontispieceView,
    navs: Seq<NavView>,
) -> Seq<RenderOpView> {
    match fp.index {
        Some(p) => seq![
            RenderOpView::WritePage(dir, PageKindView::Index, p, context_of(site, fp, navs, crumbs)),
        ],
        None => Seq::empty(),
    }
}

/// One copy per asset, into `dir`.
pub open spec fn asset_ops(assets: Seq<AssetView>, dir: Seq<char>) -> Seq<RenderOpView> {
    assets.map_values(|a: AssetView| RenderOpView::CopyAsset(a, dir))
}

/// The render of one nested page.
pub open spec fn page_ops(
    site: Seq<char>,
    dir: Seq<char>,
    crumbs: Seq<Seq<char>>,
    fp: FrontispieceView,
    navs: Seq<NavView>,
    p: PageView,
) -> Seq<RenderOpView> {
    seq![
        RenderOpView::EnsureDir(join_dir(dir, p.slug)),
        RenderOpView::WritePage(
            join_dir(dir, p.slug),
            PageKindView::Nested(p.slug),
            p,
            context_of(site, fp, navs, crumbs),
        ),
    ]
}

/// The walk of one opened bale: its directory, its index page, its assets,
/// then its items in order. The second component is the path that aborted
/// the walk, if one did; operations planned before it stand.
pub open spec fn plan_contents(
    site: Seq<char>,
    dir: Seq<char>,
    crumbs: Seq<Seq<char>>,
    fp: FrontispieceView,
    assets: Seq<AssetView>,
    items: Seq<DoctreeItemView>,
) -> (Seq<RenderOpView>, Option<Seq<char>>)
    decreases items_measure(items), items.len(), 1int,
{
    let navs = navs_of(items);
    let head = seq![RenderOpView::EnsureDir(dir)] + index_ops(site, dir, crumbs, fp, navs)
        + asset_ops(assets, dir);
    let rest = plan_items(site, dir, crumbs, fp, navs, items);
    (head + rest.0, rest.1)
}

/// The walk of a bale's remaining items, in order: pages render in place,
/// nested bales break open and recurse; a bale that cannot be broken open
/// aborts the whole walk.
pub open spec fn plan_items(
    site: Seq<char>,
    dir: Seq<char>,
    crumbs: Seq<Seq<char>>,
    fp: FrontispieceView,
    navs: Seq<NavView>,
    items: Seq<DoctreeItemView>,
) -> (Seq<RenderOpView>, Option<Seq<char>>)
    decreases items_measure(items), items.len(), 0int,
    via plan_items_dec
{
    if items.len() == 0 {
        (Seq::empty(), None)
    } else {
        match items[0] {
            DoctreeItemView::Page(p) => {
                let ops = page_ops(site, dir, crumbs, fp, navs, p);
                let rest = plan_items(site, dir, crumbs, fp, navs, items.drop_first());
                (ops + rest.0, rest.1)
            },
            DoctreeItemView::Bale(b) => {
                if !break_ok(b) {
                    (Seq::empty(), Some(crate::doctree::break_err_path(b)))
                } else {
                    let sub = plan_contents(
                        site,
                        join_dir(dir, b.frontispiece.slug),
                        crumbs.push(b.frontispiece.title),
                        b.frontispiece,
                        break_open_assets(b),
                        break_open_items(b),
                    );
                    if sub.1 is Some {
                        sub
                    } else {
                        let rest = plan_items(site, dir, crumbs, fp, navs, items.drop_first());
                        (sub.0 + rest.0, rest.1)
                    }
                }
            },
        }
    }
}

#[via_fn]
proof fn plan_items_dec(
    site: Seq<char>,
    dir: Seq<char>,
    crumbs: Seq<Seq<char>>,
    fp: FrontispieceView,
    navs: Seq<NavView>,
    items: Seq<DoctreeItemView>,
) {
    if items.len() > 0 {
        crate::doctree::lemma_items_measure_first(items);
        match items[0] {
            DoctreeItemView::Page(_) => {},
            DoctreeItemView::Bale(b) => {
                crate::doctree::lemma_break_items_measure(b);
            },
        }
    }
}

/// Every nested bale among the items is well-formed.
pub open spec fn items_wf(items: Seq<DoctreeItemView>) -> bool {
    forall|i: int|
        0 <= i < items.len() ==> ((#[trigger] items[i]) matches DoctreeItemView::Bale(b)
            ==> bale_wf(b))
}

/// Renders the contents of one opened bale into `ops`, depth first.
fn render_bale_contents(
    site: &String,
    dir: String,
    crumbs: Vec<String>,
    fp: Frontispiece,
    assets: Vec<Asset>,
    items: Vec<DoctreeItem>,
    ops: &mut Vec<RenderOp>,
) -> (err: Option<DocketError>)
    requires
        items_wf(items_view(items@)),
    ensures
        ({
            let plan = plan_contents(
                site@,
                dir@,
                titles_view(crumbs@),
                fp@,
                crate::doctree::assets_view(assets@),
                items_view(items@),
            );
            &&& ops_view(final(ops)@) == ops_view(old(ops)@) + plan.0
            &&& match err {
                None => plan.1 is None,
                Some(e) => e matches DocketError::Io(p) && plan.1 == Some(p@),
            }
        }),
    decreases items_measure(items_view(items@)), items@.len(), 1int,
{
    let ghost items0 = items_view(items@);
    let ghost assets0 = crate::doctree::assets_view(assets@);
    let ghost fp0 = fp@;
    let ghost crumbs0 = titles_view(crumbs@);
    let navs = navs_for_items(&items);
    let ghost navs0 = navs_view(navs@);

    // The bale's own directory.
    let ghost base = ops@;
    ops.push(RenderOp::EnsureDir(dir.clone()));
    proof {
        assert(ops_view(ops@) =~= ops_view(base).push(RenderOpView::EnsureDir(dir@)));
    }

    // Its index page, rendered at the bale's root.
    let (bale_title, _slug, index, footer) = fp.into_parts();
    match index {
        Some(page) => {
            let ctx = PageContext {
                site_name: site.clone(),
                bale_title: bale_title.clone(),
                footer: match &footer {
                    Some(f) => Some(f.clone()),
                    None => None,
                },
                navs: clone_navs(&navs),
                crumb_titles: clone_titles(&crumbs),
            };
            let ghost prev = ops@;
            let ghost gctx = ctx@;
            let ghost gpage = page@;
            ops.push(RenderOp::WritePage(dir.clone(), PageKind::Index, page, ctx));
            proof {
                assert(gctx == context_of(site@, fp0, navs0, crumbs0));
                assert(ops_view(ops@) =~= ops_view(prev).push(
                    RenderOpView::WritePage(dir@, PageKindView::Index, gpage, gctx),
                ));
                assert(ops_view(ops@) =~= ops_view(base) + seq![RenderOpView::EnsureDir(dir@)]
                    + index_ops(site@, dir@, crumbs0, fp0, navs0));
            }
        },
        None => {
            proof {
                assert(index_ops(site@, dir@, crumbs0, fp0, navs0) =~= Seq::<RenderOpView>::empty());
                assert(ops_view(ops@) =~= ops_view(base) + seq![RenderOpView::EnsureDir(dir@)]
                    + index_ops(site@, dir@, crumbs0, fp0, navs0));
            }
        },
    }

    // Its assets.
    let ghost after_index = ops@;
    let mut rest_assets = assets;
    let ghost mut adone = Seq::<AssetView>::empty();
    proof {
        assert(adone + crate::doctree::assets_view(rest_assets@) =~= assets0);
        assert(ops_view(ops@) =~= ops_view(after_index) + asset_ops(adone, dir@));
    }
    while rest_assets.len() > 0
        invariant
            adone + crate::doctree::assets_view(rest_assets@) == assets0,
            ops_view(ops@) == ops_view(after_index) + asset_ops(adone, dir@),
        decreases rest_assets.len(),
    {
        let ghost pre = crate::doctree::assets_view(rest_assets@);
        let a = rest_assets.remove(0);
        let ghost ga = a@;
        let ghost prev = ops@;
        ops.push(RenderOp::CopyAsset(a, dir.clone()));
        proof {
            assert(adone.push(ga) + crate::doctree::assets_view(rest_assets@) =~= adone + pre);
            assert(ops_view(ops@) =~= ops_view(prev).push(RenderOpView::CopyAsset(ga, dir@)));
            assert(asset_ops(adone.push(ga), dir@) =~= asset_ops(adone, dir@).push(
                RenderOpView::CopyAsset(ga, dir@),
            ));
            assert(ops_view(ops@) =~= ops_view(after_index) + asset_ops(adone.push(ga), dir@));
            adone = adone.push(ga);
        }
    }
    proof {
        assert(adone =~= assets0);
        assert(ops_view(ops@) =~= ops_view(base) + (seq![RenderOpView::EnsureDir(dir@)]
            + index_ops(site@, dir@, crumbs0, fp0, navs0) + asset_ops(assets0, dir@)));
    }

    // Its items, in order.
    let ghost head = seq![RenderOpView::EnsureDir(dir@)] + index_ops(
        site@,
        dir@,
        crumbs0,
        fp0,
        navs0,
    ) + asset_ops(assets0, dir@);
    let ghost after_head = ops@;
    let mut rest = items;
    while rest.len() > 0
        invariant
            items_wf(items_view(rest@)),
            bale_title@ == fp0.title,
            match footer {
                Some(f) => fp0.footer == Some(f@),
                None => fp0.footer is None,
            },
            navs_view(navs@) == navs0,
            titles_view(crumbs@) == crumbs0,
            navs0 == navs_of(items0),
            items0 == items_view(items@),
            fp0 == fp@,
            assets0 == crate::doctree::assets_view(assets@),
            head == seq![RenderOpView::EnsureDir(dir@)] + index_ops(site@, dir@, crumbs0, fp0, navs0)
                + asset_ops(assets0, dir@),
            ops_view(after_head) == ops_view(old(ops)@) + head,
            plan_items(site@, dir@, crumbs0, fp0, navs0, items0).0 == ops_view(ops@).skip(
                after_head.len() as int,
            ) + plan_items(site@, dir@, crumbs0, fp0, navs0, items_view(rest@)).0,
            plan_items(site@, dir@, crumbs0, fp0, navs0, items0).1 == plan_items(
                site@,
                dir@,
                crumbs0,
                fp0,
                navs0,
                items_view(rest@),
            ).1,
            ops_view(ops@).take(after_head.len() as int) == ops_view(after_head),
            after_head.len() <= ops@.len(),
            items_measure(items_view(rest@)) <= items_measure(items0),
            ops_view(after_head) == ops_view(base) + head,
        decreases items_measure(items_view(rest@)), items_view(rest@).len(), 0int,
    {
        let ghost rest0 = items_view(rest@);
        let ghost wf0 = items_wf(rest0);
        let item = rest.remove(0);
        let ghost gitem = item@;
        proof {
            assert(items_view(rest@) =~= rest0.drop_first());
            assert(rest0[0] == gitem);
            crate::doctree::lemma_items_measure_first(rest0);
            assert(items_wf(rest0.drop_first())) by {
                assert forall|j: int|
                    0 <= j < rest0.drop_first().len() implies ((#[trigger] rest0.drop_first()[j])
                    matches DoctreeItemView::Bale(b) ==> bale_wf(b)) by {
                    assert(rest0.drop_first()[j] == rest0[j + 1]);
                }
            }
        }
        match item {
            DoctreeItem::Page(page) => {
                let sub = join_path(dir.as_str(), page.slug().as_str());
                let ctx = PageContext {
                    site_name: site.clone(),
                    bale_title: bale_title.clone(),
                    footer: match &footer {
                        Some(f) => Some(f.clone()),
                        None => None,
                    },
                    navs: clone_navs(&navs),
                    crumb_titles: clone_titles(&crumbs),
                };
                let ghost prev = ops@;
                let ghost gpage = page@;
                let ghost gctx = ctx@;
                let slug = page.slug().clone();
                ops.push(RenderOp::EnsureDir(sub.clone()));
                ops.push(RenderOp::WritePage(sub, PageKind::Nested(slug), page, ctx));
                proof {
                    assert(gctx == context_of(site@, fp0, navs0, crumbs0));
                    assert(ops_view(ops@) =~= ops_view(prev) + page_ops(
                        site@,
                        dir@,
                        crumbs0,
                        fp0,
                        navs0,
                        gpage,
                    ));
                    assert(ops_view(ops@).take(after_head.len() as int) =~= ops_view(after_head));
                    assert(ops_view(ops@).skip(after_head.len() as int) =~= ops_view(prev).skip(
                        after_head.len() as int,
                    ) + page_ops(site@, dir@, crumbs0, fp0, navs0, gpage));
                    assert(plan_items(site@, dir@, crumbs0, fp0, navs0, items0).0 =~= ops_view(
                        ops@,
                    ).skip(after_head.len() as int) + plan_items(
                        site@,
                        dir@,
                        crumbs0,
                        fp0,
                        navs0,
                        items_view(rest@),
                    ).0);
                }
            },
            DoctreeItem::Bale(bale) => {
                let ghost gbale = bale@;
                proof {
                    assert(gitem == DoctreeItemView::Bale(gbale));
                    assert(rest0[0] matches DoctreeItemView::Bale(b) && b == gbale);
                    assert(bale_wf(gbale));
                    assert(item_measure(rest0[0]) == 1 + crate::doctree::dirs_size(gbale.nested));
                    assert(items_measure(rest0) <= items_measure(items0));
                }
                match bale.break_open() {
                    Ok((fp2, assets2, items2)) => {
                        let sub_dir = join_path(dir.as_str(), fp2.slug().as_str());
                        let mut sub_crumbs = clone_titles(&crumbs);
                        sub_crumbs.push(fp2.title().clone());
                        proof {
                            assert(titles_view(sub_crumbs@) =~= crumbs0.push(
                                gbale.frontispiece.title,
                            ));
                            crate::doctree::lemma_break_items_measure(gbale);
                            assert(items_view(items2@) == break_open_items(gbale));
                            assert(items_wf(items_view(items2@))) by {
                                assert forall|j: int|
                                    0 <= j < items_view(items2@).len() implies ((
                                #[trigger] items_view(items2@)[j]) matches DoctreeItemView::Bale(
                                    bv,
                                ) ==> bale_wf(bv)) by {
                                    assert(items_view(items2@)[j] == items2@[j]@);
                                }
                            }
                            assert(items_measure(items_view(items2@)) <= dirs_size(gbale.nested));
                            assert(items_measure(items_view(items2@)) < item_measure(rest0[0]));
                            assert(item_measure(rest0[0]) <= items_measure(rest0));
                            assert(items_measure(items_view(items2@)) < items_measure(items0));
                            assert(items0 == items_view(items@));
                        }
                        let ghost prev = ops@;
                        let sub_err = render_bale_contents(
                            site,
                            sub_dir,
                            sub_crumbs,
                            fp2,
                            assets2,
                            items2,
                            ops,
                        );
                        proof {
                            assert(ops_view(ops@).take(after_head.len() as int) =~= ops_view(
                                after_head,
                            ));
                        }
                        match sub_err {
                            None => {
                                proof {
                                    let subplan = plan_contents(
                                        site@,
                                        join_dir(dir@, gbale.frontispiece.slug),
                                        crumbs0.push(gbale.frontispiece.title),
                                        gbale.frontispiece,
                                        break_open_assets(gbale),
                                        break_open_items(gbale),
                                    );
                                    assert(ops_view(ops@) =~= ops_view(prev) + subplan.0);
                                    assert(ops_view(ops@).skip(after_head.len() as int)
                                        =~= ops_view(prev).skip(after_head.len() as int)
                                        + subplan.0);
                                    assert(plan_items(site@, dir@, crumbs0, fp0, navs0, items0).0
                                        =~= ops_view(ops@).skip(after_head.len() as int)
                                        + plan_items(
                                        site@,
                                        dir@,
                                        crumbs0,
                                        fp0,
                                        navs0,
                                        items_view(rest@),
                                    ).0);
                                }
                            },
                            Some(e) => {
                                proof {
                                    assert(ops_view(ops@) =~= ops_view(ops@).take(
                                        after_head.len() as int,
                                    ) + ops_view(ops@).skip(after_head.len() as int));
                                    let subplan = plan_contents(
                                        site@,
                                        join_dir(dir@, gbale.frontispiece.slug),
                                        crumbs0.push(gbale.frontispiece.title),
                                        gbale.frontispiece,
                                        break_open_assets(gbale),
                                        break_open_items(gbale),
                                    );
                                    assert(ops_view(ops@) =~= ops_view(prev) + subplan.0);
                                    assert(plan_items(site@, dir@, crumbs0, fp0, navs0, rest0).0
                                        =~= subplan.0);
                                    assert(ops_view(ops@).skip(after_head.len() as int)
                                        =~= ops_view(prev).skip(after_head.len() as int)
                                        + subplan.0);
                                    assert(ops_view(ops@) =~= ops_view(old(ops)@) + (head
                                        + plan_items(site@, dir@, crumbs0, fp0, navs0, items0).0));
                                    assert(ops_view(ops@) =~= ops_view(old(ops)@) + plan_contents(
                                        site@,
                                        dir@,
                                        crumbs0,
                                        fp0,
                                        assets0,
                                        items0,
                                    ).0);
                                }
                                return Some(e);
                            },
                        }
                    },
                    Err(e) => {
                        proof {
                            assert(ops_view(ops@) =~= ops_view(ops@).take(after_head.len() as int)
                                + ops_view(ops@).skip(after_head.len() as int));
                            assert(!break_ok(gbale));
                            assert(plan_items(site@, dir@, crumbs0, fp0, navs0, rest0).0
                                =~= Seq::<RenderOpView>::empty());
                            assert(ops_view(ops@).skip(after_head.len() as int) + plan_items(
                                site@,
                                dir@,
                                crumbs0,
                                fp0,
                                navs0,
                                rest0,
                            ).0 =~= ops_view(ops@).skip(after_head.len() as int));
                            assert(ops_view(ops@) =~= ops_view(old(ops)@) + (head + plan_items(
                                site@,
                                dir@,
                                crumbs0,
                                fp0,
                                navs0,
                                items0,
                            ).0));
                            assert(ops_view(ops@) =~= ops_view(old(ops)@) + plan_contents(
                                site@,
                                dir@,
                                crumbs0,
                                fp0,
                                assets0,
                                items0,
                            ).0);
                        }
                        return Some(e);
                    },
                }
            },
        }
    }
    proof {
        assert(items_view(rest@) =~= Seq::<DoctreeItemView>::empty());
        assert(plan_items(site@, dir@, crumbs0, fp0, navs0, items_view(rest@)).0
            =~= Seq::<RenderOpView>::empty());
        assert(plan_items(site@, dir@, crumbs0, fp0, navs0, items0).0 =~= ops_view(ops@).skip(
            after_head.len() as int,
        ));
        assert(ops_view(ops@) =~= ops_view(ops@).take(after_head.len() as int) + ops_view(
            ops@,
        ).skip(after_head.len() as int));
        assert(ops_view(ops@) =~= ops_view(old(ops)@) + (head + plan_items(
            site@,
            dir@,
            crumbs0,
            fp0,
            navs0,
            items0,
        ).0));
        assert(ops_view(ops@) =~= ops_view(old(ops)@) + plan_contents(
            site@,
            dir@,
            crumbs0,
            fp0,
            assets0,
            items0,
        ).0);
    }
    None
}

/// The model of a [`RenderContext`].
pub struct RenderContextView {
    pub path: Seq<char>,
    pub site_name: Seq<char>,
    pub global_assets: Seq<AssetView>,
}

/// Global information about one render: the output root, the site name used
/// as the navigation root, and the site-wide assets the layout wants copied
/// once to the output root.
pub struct RenderContext {
    path: String,
    site_name: String,
    global_assets: Vec<Asset>,
}

impl View for RenderContext {
    type V = RenderContextView;

    closed spec fn view(&self) -> RenderContextView {
        RenderContextView {
            path: self.path@,
            site_name: self.site_name@,
            global_assets: crate::doctree::assets_view(self.global_assets@),
        }
    }
}

impl RenderContext {
    /// A root render context.
    pub fn new(path: String, site_name: String, global_assets: Vec<Asset>) -> (r: RenderContext)
        ensures
            r@ == (RenderContextView {
                path: path@,
                site_name: site_name@,
                global_assets: crate::doctree::assets_view(global_assets@),
            }),
    {
        RenderContext { path, site_name, global_assets }
    }
}

/// The whole render: the output root and the site-wide assets first, then
/// the walk of the root bale; nothing at all when the root cannot be broken
/// open.
pub open spec fn plan_render(
    target: Seq<char>,
    title: Seq<char>,
    root: BaleView,
    global: Seq<AssetView>,
) -> (Seq<RenderOpView>, Option<Seq<char>>) {
    if !break_ok(root) {
        (Seq::empty(), Some(crate::doctree::break_err_path(root)))
    } else {
        let pre = seq![RenderOpView::EnsureDir(target)] + asset_ops(global, target);
        let sub = plan_contents(
            title,
            target,
            seq![title],
            root.frontispiece,
            break_open_assets(root),
            break_open_items(root),
        );
        (pre + sub.0, sub.1)
    }
}


/// Render a doctree: plan the whole output for the given root bale under
/// `target`, with `title` as the site name. The returned operations are in
/// execution order; the second component is the error that aborted the
/// walk, if one did — operations planned before it stand.
pub fn render(target: &str, title: String, doctree_root: Bale, global_assets: Vec<Asset>) -> (r: (
    Vec<RenderOp>,
    Option<DocketError>,
))
    requires
        bale_wf(doctree_root@),
    ensures
        ({
            let plan = plan_render(
                target@,
                title@,
                doctree_root@,
                crate::doctree::assets_view(global_assets@),
            );
            &&& ops_view(r.0@) == plan.0
            &&& match r.1 {
                None => plan.1 is None,
                Some(e) => e matches DocketError::Io(p) && plan.1 == Some(p@),
            }
        }),
{
    let ghost root0 = doctree_root@;
    let ghost global0 = crate::doctree::assets_view(global_assets@);
    let ctx = RenderContext::new(target.to_owned(), title, global_assets);
    match doctree_root.break_open() {
        Err(e) => (Vec::new(), Some(e)),
        Ok((frontispiece, assets, items)) => {
            let mut ops: Vec<RenderOp> = Vec::new();
            ops.push(RenderOp::EnsureDir(ctx.path.clone()));
            proof {
                assert(ops_view(ops@) =~= seq![RenderOpView::EnsureDir(target@)]);
            }
            // The site-wide assets of the layout, copied once to the root.
            let mut rest_assets = ctx.global_assets;
            let ghost mut adone = Seq::<AssetView>::empty();
            proof {
                assert(adone + crate::doctree::assets_view(rest_assets@) =~= global0);
                assert(ops_view(ops@) =~= seq![RenderOpView::EnsureDir(target@)] + asset_ops(
                    adone,
                    target@,
                ));
            }
            while rest_assets.len() > 0
                invariant
                    adone + crate::doctree::assets_view(rest_assets@) == global0,
                    ops_view(ops@) == seq![RenderOpView::EnsureDir(target@)] + asset_ops(
                        adone,
                        target@,
                    ),
                    ctx.path@ == target@,
                decreases rest_assets.len(),
            {
                let ghost pre = crate::doctree::assets_view(rest_assets@);
                let a = rest_assets.remove(0);
                let ghost ga = a@;
                let ghost prev = ops@;
                ops.push(RenderOp::CopyAsset(a, ctx.path.clone()));
                proof {
                    assert(adone.push(ga) + crate::doctree::assets_view(rest_assets@) =~= adone
                        + pre);
                    assert(ops_view(ops@) =~= ops_view(prev).push(
                        RenderOpView::CopyAsset(ga, target@),
                    ));
                    assert(asset_ops(adone.push(ga), target@) =~= asset_ops(adone, target@).push(
                        RenderOpView::CopyAsset(ga, target@),
                    ));
                    adone = adone.push(ga);
                }
            }
            proof {
                assert(adone =~= global0);
            }
            let mut crumbs: Vec<String> = Vec::new();
            crumbs.push(ctx.site_name.clone());
            proof {
                assert(titles_view(crumbs@) =~= seq![root0.frontispiece.title].update(
                    0,
                    ctx.site_name@,
                ).take(1));
                assert(titles_view(crumbs@) =~= Seq::<Seq<char>>::empty().push(ctx.site_name@));
            }
            let err = render_bale_contents(
                &ctx.site_name,
                ctx.path.clone(),
                crumbs,
                frontispiece,
                assets,
                items,
                &mut ops,
            );
            proof {
                let plan = plan_render(target@, ctx.site_name@, root0, global0);
                let sub = plan_contents(
                    ctx.site_name@,
                    target@,
                    seq![ctx.site_name@],
                    root0.frontispiece,
                    break_open_assets(root0),
                    break_open_items(root0),
                );
                assert(ops_view(ops@) =~= (seq![RenderOpView::EnsureDir(target@)] + asset_ops(
                    global0,
                    target@,
                )) + sub.0);
                assert(plan.0 =~= ops_view(ops@));
            }
            (ops, err)
        },
    }
}

} // verus!
