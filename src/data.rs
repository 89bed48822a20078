//! The values the engine hands out: share rows and directory listings.

use vstd::prelude::*;

verus! {

/// One share: the code, the root path it grants access to, when it stops
/// resolving (seconds since the Unix epoch; `None` for never) and how many
/// times it was resolved.
#[derive(Debug, Clone)]
pub struct CodePath {
    pub code: String,
    pub path: String,
    pub expiration: Option<i64>,
    pub hits: u64,
}

/// The mathematical value of a `CodePath`.
pub struct CodeRow {
    pub code: Seq<char>,
    pub path: Seq<char>,
    pub expiration: Option<i64>,
    pub hits: u64,
}

impl View for CodePath {
    type V = CodeRow;

    open spec fn view(&self) -> CodeRow {
        CodeRow { code: self.code@, path: self.path@, expiration: self.expiration, hits: self.hits }
    }
}

impl CodePath {
    /// A field-by-field copy.
    pub fn duplicate(&self) -> (r: CodePath)
        ensures
            r@ == self@,
    {
        CodePath {
            code: self.code.clone(),
            path: self.path.clone(),
            expiration: self.expiration,
            hits: self.hits,
        }
    }
}

/// One entry of a directory listing: whether it is a directory, its name
/// (the last component of its path) and its path relative to the share root.
#[derive(Debug, Clone)]
pub struct DirItem {
    pub is_dir: bool,
    pub name: String,
    pub path: String,
}

/// The mathematical value of a `DirItem`.
pub struct DirItemView {
    pub is_dir: bool,
    pub name: Seq<char>,
    pub path: Seq<char>,
}

impl View for DirItem {
    type V = DirItemView;

    open spec fn view(&self) -> DirItemView {
        DirItemView { is_dir: self.is_dir, name: self.name@, path: self.path@ }
    }
}

/// A directory listing annotated for display: the share-relative path of the
/// directory (starting with the share code), its entries, and the code.
#[derive(Debug, Clone)]
pub struct DirContext {
    pub dpath: String,
    pub items: Vec<DirItem>,
    pub code: String,
}

} // verus!
