//! Non-renderable assets.
//!
//! Assets are the files in a docs directory which are copied to the output
//! verbatim to support the rendered pages. They are either on-disk files (or
//! whole demoted directories) named by path, or fixed strings bundled with
//! the generator itself (stylesheets, scripts) to be written under a given
//! name. The library only plans the copies; carrying them out is the
//! embedding binary's work.

use vstd::prelude::*;

verus! {

/// The model of an [`Asset`].
pub enum AssetView {
    Disk(Seq<char>),
    Internal(Seq<char>, Seq<char>),
}

/// A documentation asset.
pub enum Asset {
    /// An on-disk asset: the source path to copy from.
    Disk(String),
    /// An internal asset: fixed contents to write under a fixed name.
    Internal(InternalAsset),
}

/// Fixed contents for an internal asset.
pub struct InternalAsset {
    /// The file name to create.
    pub name: &'static str,
    /// The contents of the asset.
    pub contents: &'static str,
}

impl View for Asset {
    type V = AssetView;

    open spec fn view(&self) -> AssetView {
        match self {
            Asset::Disk(p) => AssetView::Disk(p@),
            Asset::Internal(i) => AssetView::Internal(i.name@, i.contents@),
        }
    }
}

impl Asset {
    /// Create an internal asset holding `contents`, to be written to a file
    /// called `name` in the output directory.
    pub fn internal(name: &'static str, contents: &'static str) -> (r: Asset)
        ensures
            r@ == AssetView::Internal(name@, contents@),
    {
        Asset::Internal(InternalAsset { name, contents })
    }

    /// Create an on-disk asset from its source path.
    pub fn path(path: String) -> (r: Asset)
        ensures
            r@ == AssetView::Disk(path@),
    {
        Asset::Disk(path)
    }
}

impl InternalAsset {
    /// The file name to create in the output.
    pub fn name(&self) -> (r: &'static str)
        ensures
            r@ == self.name@,
    {
        self.name
    }

    /// The contents to fill the file with.
    pub fn contents(&self) -> (r: &'static str)
        ensures
            r@ == self.contents@,
    {
        self.contents
    }
}

} // verus!
