//! A documentation set.
//!
//! A [`Docket`] pairs a site title with the root bale of a source tree, and
//! renders the whole set to a plan of output operations. The embedding
//! binary reads the source directory into a [`SourceDir`], derives the title
//! (from a `title` file or the source path), and executes the plan.

use vstd::prelude::*;

use crate::asset::Asset;
use crate::doctree::{
    self, Bale, SourceDir, bale_wf, entries_wf, scan_err_path, scan_ok, scanned_bale,
};
use crate::error::DocketError;
use crate::render::{RenderOp, ops_view, plan_render};
use crate::utils::file_name_of;

verus! {

/// A documentation set: a title and the root of its doctree.
pub struct Docket {
    title: String,
    doctree_root: Bale,
}

/// The title a documentation set draws from its source path: the last
/// component of the canonical path that is not `docs`, or a fixed fallback.
pub open spec fn title_from(components: Seq<Seq<char>>) -> Seq<char> {
    let kept = components.filter(|c: Seq<char>| c != seq!['d', 'o', 'c', 's']);
    if kept.len() > 0 {
        kept.last()
    } else {
        fallback_title()
    }
}

/// The fallback site title.
pub open spec fn fallback_title() -> Seq<char> {
    seq!['D', 'o', 'c', 'u', 'm', 'e', 'n', 't', 'a', 't', 'i', 'o', 'n']
}

/// Calculate the title of a documentation set from the components of its
/// canonical source path: the last one that is not `docs`, or a fallback.
pub fn title_from_components(components: Vec<String>) -> (r: String)
    ensures
        r@ == title_from(components@.map_values(|s: String| s@)),
{
    let ghost views = components@.map_values(|s: String| s@);
    let ghost docs: Seq<char> = seq!['d', 'o', 'c', 's'];
    let ghost p = |c: Seq<char>| c != seq!['d', 'o', 'c', 's'];
    let mut best: Option<String> = None;
    let n = components.len();
    let mut i: usize = 0;
    proof {
        assert(views.take(0) =~= Seq::<Seq<char>>::empty());
        assert(views.take(0).filter(p) =~= Seq::<Seq<char>>::empty());
    }
    while i < n
        invariant
            i <= n,
            n == components@.len(),
            views == components@.map_values(|s: String| s@),
            p == (|c: Seq<char>| c != seq!['d', 'o', 'c', 's']),
            match best {
                Some(t) => views.take(i as int).filter(p).len() > 0 && t@ == views.take(
                    i as int,
                ).filter(p).last(),
                None => views.take(i as int).filter(p).len() == 0,
            },
        decreases n - i,
    {
        let c = &components[i];
        let keep = !is_docs(c.as_str());
        proof {
            assert(views.take(i + 1).drop_last() =~= views.take(i as int));
            assert(views.take(i + 1).last() == views[i as int]);
            reveal(Seq::filter);
        }
        if keep {
            best = Some(c.clone());
        }
        i = i + 1;
    }
    proof {
        assert(views.take(n as int) =~= views);
    }
    match best {
        Some(t) => t,
        None => {
            let r = "Documentation".to_owned();
            proof {
                reveal_strlit("Documentation");
                assert(r@ =~= fallback_title());
            }
            r
        },
    }
}

/// True when `s` is exactly `docs`.
fn is_docs(s: &str) -> (r: bool)
    ensures
        r == (s@ == seq!['d', 'o', 'c', 's']),
{
    let n = s.unicode_len();
    if n == 4 {
        let r = s.get_char(0) == 'd' && s.get_char(1) == 'o' && s.get_char(2) == 'c' && s.get_char(
            3,
        ) == 's';
        proof {
            if r {
                assert(s@ =~= seq!['d', 'o', 'c', 's']);
            } else if s@ == seq!['d', 'o', 'c', 's'] {
                assert(s@[0] == 'd' && s@[1] == 'o' && s@[2] == 'c' && s@[3] == 's');
            }
        }
        r
    } else {
        proof {
            if s@ == seq!['d', 'o', 'c', 's'] {
                assert(s@.len() == 4);
            }
        }
        false
    }
}

impl Docket {
    /// Open the given source tree as a documentation collection with the
    /// given title. Fails exactly when the root's shallow scan fails.
    pub fn open(title: String, dir: SourceDir) -> (r: Result<Docket, DocketError>)
        requires
            entries_wf(dir.entries@),
            file_name_of(dir.path@) is Some,
        ensures
            match r {
                Ok(d) => scan_ok(dir) && d.title()@ == title@ && d.root()@ == scanned_bale(dir)
                    && d.wf(),
                Err(e) => !scan_ok(dir) && (e matches DocketError::Io(p) && p@ == scan_err_path(
                    dir,
                )),
            },
    {
        match doctree::open(dir) {
            Ok(doctree_root) => Ok(Docket { title, doctree_root }),
            Err(e) => Err(e),
        }
    }

    /// The documentation set's title.
    pub closed spec fn title(&self) -> String {
        self.title
    }

    /// The root bale.
    pub closed spec fn root(&self) -> Bale {
        self.doctree_root
    }

    /// The root bale's well-formedness, carried from the scan.
    pub open spec fn wf(&self) -> bool {
        bale_wf(self.root()@)
    }

    /// Render the documentation set: plan the whole output tree under
    /// `target`, with the given site-wide assets copied to the output root.
    pub fn render(self, target: &str, global_assets: Vec<Asset>) -> (r: (
        Vec<RenderOp>,
        Option<DocketError>,
    ))
        requires
            self.wf(),
        ensures
            ({
                let plan = plan_render(
                    target@,
                    self.title()@,
                    self.root()@,
                    crate::doctree::assets_view(global_assets@),
                );
                &&& ops_view(r.0@) == plan.0
                &&& match r.1 {
                    None => plan.1 is None,
                    Some(e) => e matches DocketError::Io(p) && plan.1 == Some(p@),
                }
            }),
    {
        crate::render::render(target, self.title, self.doctree_root, global_assets)
    }
}

} // verus!
