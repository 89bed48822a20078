//! Resolving a share code and sub-path to a contained target, and shaping
//! what a resolved target becomes for the transport.

use vstd::prelude::*;

use crate::data::{CodeRow, DirContext};
use crate::db::{after_increment, live_row, now_timestamp, DB};
use crate::errors::HFMError;
use crate::fs::{DirectoryListing, FSItem};
use crate::paths::{
    contain, contained_target, escapes, is_below, is_contained, relative_to, strip_root,
};

verus! {

/// A share resolved against the code table: its root and the target that
/// the requested sub-path names within it.
#[derive(Debug, Clone)]
pub struct ResolvedShare {
    pub root: String,
    pub target: String,
}

/// What a transport answers with: a file to stream, or a directory listing
/// annotated for display.
#[derive(Debug, Clone)]
pub enum CodeResponse {
    Blob { path: String, size_bytes: u64 },
    Directory(DirContext),
}

/// The table and the outcome after resolving `code` and `sub` at time `now`:
/// an absent or expired code is `NotFound`; a sub-path that escapes is
/// `Forbidden`; otherwise the share's root and the contained target, with
/// one hit counted (when the count has room for it).
pub open spec fn resolve_outcome(rows: Seq<CodeRow>, code: Seq<char>, sub: Seq<char>, now: i64) -> (
    Seq<CodeRow>,
    Result<(Seq<char>, Seq<char>), HFMError>,
) {
    match live_row(rows, code, now) {
        None => (rows, Err(HFMError::NotFound)),
        Some(r) => if escapes(sub) {
            (rows, Err(HFMError::Forbidden))
        } else {
            (after_increment(rows, code, now).0, Ok((r.path, contained_target(r.path, sub))))
        },
    }
}

pub open spec fn resolved_view(r: Result<ResolvedShare, HFMError>) -> Result<
    (Seq<char>, Seq<char>),
    HFMError,
> {
    match r {
        Ok(s) => Ok((s.root@, s.target@)),
        Err(e) => Err(e),
    }
}

/// The display path of a directory: the share code, followed by the
/// directory's path below the root when it is not the root itself.
pub open spec fn display_path(code: Seq<char>, root: Seq<char>, target: Seq<char>) -> Seq<char> {
    if is_below(root, target) {
        code + seq!['/'] + relative_to(root, target)
    } else {
        code
    }
}

/// Finds the target that `code` and the sub-path `path` name at time `now`,
/// without counting a hit: a caller that checks the target further (against
/// symbolic links, say) counts the hit once that check has passed.
pub fn locate_at(db: &DB, code: &str, path: &str, now: i64) -> (r: Result<ResolvedShare, HFMError>)
    requires
        db.wf(),
    ensures
        resolved_view(r) == resolve_outcome(db@, code@, path@, now).1,
        r matches Ok(s) ==> is_contained(s.root@, s.target@),
{
    let entry = match db.get_code_path_at(code, now) {
        Some(entry) => entry,
        None => return Err(HFMError::NotFound),
    };
    let target = match contain(entry.path.as_str(), path) {
        Ok(target) => target,
        Err(e) => return Err(e),
    };
    Ok(ResolvedShare { root: entry.path, target })
}

/// Finds the target that `code` and the sub-path `path` name now, without
/// counting a hit.
pub fn locate(db: &DB, code: &str, path: &str) -> (r: Result<ResolvedShare, HFMError>)
    requires
        db.wf(),
    ensures
        exists|now: i64| resolved_view(r) == #[trigger] resolve_outcome(db@, code@, path@, now).1,
        r matches Ok(s) ==> is_contained(s.root@, s.target@),
{
    let now = now_timestamp();
    locate_at(db, code, path, now)
}

/// Resolves `code` and the sub-path `path` as seen at time `now`.
pub fn share_dir_at(db: &mut DB, code: &str, path: &str, now: i64) -> (r: Result<
    ResolvedShare,
    HFMError,
>)
    requires
        old(db).wf(),
    ensures
        final(db).wf(),
        (final(db)@, resolved_view(r)) == resolve_outcome(old(db)@, code@, path@, now),
        r matches Ok(s) ==> is_contained(s.root@, s.target@),
{
    let resolved = locate_at(db, code, path, now)?;
    // Counting the hit is best effort: a count at its maximum stays there.
    let _ = db.increment_hit_count_at(code, now);
    Ok(resolved)
}

/// Resolves `code` and the sub-path `path` now.
pub fn share_dir(db: &mut DB, code: &str, path: &str) -> (r: Result<ResolvedShare, HFMError>)
    requires
        old(db).wf(),
    ensures
        final(db).wf(),
        exists|now: i64|
            (final(db)@, resolved_view(r)) == #[trigger] resolve_outcome(old(db)@, code@, path@, now),
        r matches Ok(s) ==> is_contained(s.root@, s.target@),
{
    let now = now_timestamp();
    share_dir_at(db, code, path, now)
}

/// Resolves `code` to its share root now.
pub fn share(db: &mut DB, code: &str) -> (r: Result<ResolvedShare, HFMError>)
    requires
        old(db).wf(),
    ensures
        final(db).wf(),
        exists|now: i64|
            (final(db)@, resolved_view(r)) == #[trigger] resolve_outcome(old(db)@, code@, ""@, now),
        r matches Ok(s) ==> is_contained(s.root@, s.target@),
{
    share_dir(db, code, "")
}

/// The root path of the share with `code`, when it is live now.
pub fn resolve_code_fpath(db: &DB, code: &str) -> (r: Option<String>)
    requires
        db.wf(),
    ensures
        exists|now: i64|
            match #[trigger] live_row(db@, code@, now) {
                Some(row) => r matches Some(p) && p@ == row.path,
                None => r is None,
            },
{
    match db.get_code_path(code) {
        Some(entry) => Some(entry.path),
        None => None,
    }
}

/// Annotates a directory's listing with the share code and the directory's
/// display path.
pub fn dir_context(code: &str, share: &ResolvedShare, listing: DirectoryListing) -> (r: DirContext)
    ensures
        r.code@ == code@,
        r.dpath@ == display_path(code@, share.root@, share.target@),
        r.items@ == listing.items@,
{
    let mut dpath = code.to_owned();
    match strip_root(share.root.as_str(), share.target.as_str()) {
        Some(rel) => {
            proof {
                reveal_strlit("/");
            }
            dpath.append("/");
            dpath.append(rel.as_str());
        },
        None => {},
    }
    DirContext { dpath, items: listing.items, code: code.to_owned() }
}

/// What to answer with for a resolved share's target.
pub fn code_response(code: &str, share: &ResolvedShare, item: FSItem) -> (r: CodeResponse)
    ensures
        item matches FSItem::File { path, size_bytes } ==> (r matches CodeResponse::Blob {
            path: p,
            size_bytes: n,
        } && p@ == path@ && n == size_bytes),
        item matches FSItem::Directory(l) ==> (r matches CodeResponse::Directory(c) && c.code@
            == code@ && c.dpath@ == display_path(code@, share.root@, share.target@) && c.items@
            == l.items@),
{
    match item {
        FSItem::File { path, size_bytes } => CodeResponse::Blob { path, size_bytes },
        FSItem::Directory(listing) => CodeResponse::Directory(dir_context(code, share, listing)),
    }
}

} // verus!
