//! Classifying a resolved target, listing a directory below a share root, and
//! cutting a file into chunks to stream.

use vstd::prelude::*;

use vstd::utf8::{encode_utf8, encode_utf8_decode_utf8};

use crate::data;
use crate::data::DirItemView;
use crate::errors::{DiskErrorKind, HFMError};
use crate::paths::{is_below, is_hidden_name, last_component, rel_start, relative_to, strip_root};
use crate::utils::get_last_path_component;

verus! {

broadcast use vstd::seq_lib::group_to_multiset_ensures;

/// What the filesystem says a path is.
#[derive(Debug, Clone, Copy, PartialEq, Eq, Structural)]
pub enum FileKind {
    File,
    Directory,
    Other,
}

/// What asking the filesystem about a resolved target gave.
#[derive(Debug, Clone, Copy, PartialEq, Eq, Structural)]
pub enum TargetStat {
    /// Nothing exists at the path.
    Missing,
    /// The metadata could not be read for another reason.
    Unreadable,
    /// A regular file of this many bytes.
    File { size_bytes: u64 },
    Directory,
    /// Anything else: a special file, a broken link.
    Other,
}

/// One classified child of a directory, by its full path.
#[derive(Debug, Clone)]
pub enum DirItem {
    File { path: String, size_bytes: u64 },
    Directory { path: String },
}

impl DirItem {
    pub open spec fn spec_path(&self) -> Seq<char> {
        match self {
            DirItem::File { path, .. } => path@,
            DirItem::Directory { path } => path@,
        }
    }

    /// Classifies a directory child from what its metadata says. A path that
    /// is not text, and a child that is neither a file nor a directory, are
    /// refused.
    pub fn from_entry(path: Option<String>, kind: FileKind, size_bytes: u64) -> (r: Result<
        DirItem,
        HFMError,
    >)
        ensures
            path is None ==> r == Err::<DirItem, HFMError>(HFMError::UnicodeError),
            path is Some && kind == FileKind::Other ==> r == Err::<DirItem, HFMError>(
                HFMError::UnknownFileType,
            ),
            path is Some && kind == FileKind::File ==> (r matches Ok(DirItem::File { path: p, size_bytes: n })
                && p@ == path->0@ && n == size_bytes),
            path is Some && kind == FileKind::Directory ==> (r matches Ok(DirItem::Directory { path: p })
                && p@ == path->0@),
    {
        match path {
            None => Err(HFMError::UnicodeError),
            Some(p) => match kind {
                FileKind::File => Ok(DirItem::File { path: p, size_bytes }),
                FileKind::Directory => Ok(DirItem::Directory { path: p }),
                FileKind::Other => Err(HFMError::UnknownFileType),
            },
        }
    }

    pub fn path(&self) -> (r: &String)
        ensures
            r@ == self.spec_path(),
    {
        match self {
            DirItem::File { path, .. } => path,
            DirItem::Directory { path } => path,
        }
    }

    pub fn is_dir(&self) -> (r: bool)
        ensures
            r == (self is Directory),
    {
        match self {
            DirItem::File { .. } => false,
            DirItem::Directory { .. } => true,
        }
    }
}

/// The entries of one directory, ready to be rendered or serialised.
#[derive(Debug, Clone)]
pub struct DirectoryListing {
    pub items: Vec<data::DirItem>,
}

/// A resolved target: a directory's listing, or a file to stream.
#[derive(Debug, Clone)]
pub enum FSItem {
    Directory(DirectoryListing),
    File { path: String, size_bytes: u64 },
}

/// The listing entry for a child: its path relative to `root` and the last
/// component of that as its name. There is none when the child does not lie
/// below `root` or its relative path has no name.
pub open spec fn item_of(root: Seq<char>, e: DirItem) -> Option<DirItemView> {
    let p = e.spec_path();
    if is_below(root, p) {
        match last_component(relative_to(root, p)) {
            Some(name) => Some(
                DirItemView { is_dir: e is Directory, name, path: relative_to(root, p) },
            ),
            None => None,
        }
    } else {
        None
    }
}

/// Every child has a listing entry.
pub open spec fn listable(root: Seq<char>, es: Seq<DirItem>) -> bool {
    forall|i: int| 0 <= i < es.len() ==> #[trigger] item_of(root, es[i]) is Some
}

/// The listing entries of the children whose names are not hidden, in the
/// children's order.
pub open spec fn visible_items(root: Seq<char>, es: Seq<DirItem>) -> Seq<DirItemView>
    decreases es.len(),
{
    if es.len() == 0 {
        Seq::empty()
    } else {
        let prev = visible_items(root, es.drop_last());
        let d = item_of(root, es.last())->0;
        if is_hidden_name(d.name) {
            prev
        } else {
            prev.push(d)
        }
    }
}

/// Byte-wise lexicographic order: a proper prefix comes first.
pub open spec fn bytes_le(a: Seq<u8>, b: Seq<u8>) -> bool
    decreases a.len(),
{
    if a.len() == 0 {
        true
    } else if b.len() == 0 {
        false
    } else if a[0] != b[0] {
        a[0] < b[0]
    } else {
        bytes_le(a.drop_first(), b.drop_first())
    }
}

/// Paths ordered by their UTF-8 bytes.
pub open spec fn path_le(a: Seq<char>, b: Seq<char>) -> bool {
    bytes_le(encode_utf8(a), encode_utf8(b))
}

pub open spec fn sorted_by_path(s: Seq<DirItemView>) -> bool {
    forall|i: int, j: int| 0 <= i < j < s.len() ==> path_le(#[trigger] s[i].path, #[trigger] s[j].path)
}

/// Ascending by path with no path twice.
pub open spec fn strictly_sorted_by_path(s: Seq<DirItemView>) -> bool {
    forall|i: int, j: int|
        0 <= i < j < s.len() ==> path_le(#[trigger] s[i].path, #[trigger] s[j].path) && s[i].path
            != s[j].path && encode_utf8(s[i].path) != encode_utf8(s[j].path)
}

/// No two children have the same path.
pub open spec fn distinct_paths(es: Seq<DirItem>) -> bool {
    forall|i: int, j: int|
        0 <= i < es.len() && 0 <= j < es.len() && i != j ==> #[trigger] es[i].spec_path()
            != #[trigger] es[j].spec_path()
}

pub open spec fn item_views(v: Seq<data::DirItem>) -> Seq<DirItemView> {
    v.map_values(|d: data::DirItem| d@)
}

/// `l` lists the visible children of `es` below `root`, each once, sorted by
/// relative path.
pub open spec fn lists(root: Seq<char>, es: Seq<DirItem>, l: DirectoryListing) -> bool {
    &&& item_views(l.items@).to_multiset() == visible_items(root, es).to_multiset()
    &&& sorted_by_path(item_views(l.items@))
}

proof fn lemma_bytes_le_total(a: Seq<u8>, b: Seq<u8>)
    ensures
        bytes_le(a, b) || bytes_le(b, a),
    decreases a.len(),
{
    if a.len() > 0 && b.len() > 0 && a[0] == b[0] {
        lemma_bytes_le_total(a.drop_first(), b.drop_first());
    }
}

proof fn lemma_bytes_le_trans(a: Seq<u8>, b: Seq<u8>, c: Seq<u8>)
    requires
        bytes_le(a, b),
        bytes_le(b, c),
    ensures
        bytes_le(a, c),
    decreases a.len(),
{
    if a.len() > 0 && b.len() > 0 && c.len() > 0 && a[0] == b[0] && b[0] == c[0] {
        lemma_bytes_le_trans(a.drop_first(), b.drop_first(), c.drop_first());
    }
}

/// Two paths below the same root with the same relative path are the same.
proof fn lemma_relative_injective(root: Seq<char>, p: Seq<char>, q: Seq<char>)
    requires
        is_below(root, p),
        is_below(root, q),
        relative_to(root, p) == relative_to(root, q),
    ensures
        p == q,
{
    let s = rel_start(root);
    assert forall|k: int| 0 <= k < s implies p[k] == q[k] by {
        if k < root.len() {
            assert(p.subrange(0, root.len() as int)[k] == q.subrange(0, root.len() as int)[k]);
        }
    }
    assert(p =~= p.subrange(0, s) + relative_to(root, p));
    assert(q =~= q.subrange(0, s) + relative_to(root, q));
    assert(p.subrange(0, s) =~= q.subrange(0, s));
}

/// Whether path `a` comes no later than path `b` in byte order.
pub fn path_le_exec(a: &str, b: &str) -> (r: bool)
    ensures
        r == path_le(a@, b@),
{
    let x = a.as_bytes();
    let y = b.as_bytes();
    let ghost xs = x@;
    let ghost ys = y@;
    assert(xs == encode_utf8(a@));
    assert(ys == encode_utf8(b@));
    let mut i: usize = 0;
    assert(xs.subrange(0, xs.len() as int) =~= xs);
    assert(ys.subrange(0, ys.len() as int) =~= ys);
    while i < x.len() && i < y.len()
        invariant
            x@ == xs,
            y@ == ys,
            xs == encode_utf8(a@),
            ys == encode_utf8(b@),
            i <= xs.len(),
            i <= ys.len(),
            bytes_le(xs, ys) == bytes_le(
                xs.subrange(i as int, xs.len() as int),
                ys.subrange(i as int, ys.len() as int),
            ),
        decreases xs.len() - i,
    {
        let ghost xr = xs.subrange(i as int, xs.len() as int);
        let ghost yr = ys.subrange(i as int, ys.len() as int);
        assert(xr[0] == x[i as int]);
        assert(yr[0] == y[i as int]);
        if x[i] != y[i] {
            assert(bytes_le(xr, yr) == (xr[0] < yr[0]));
            return x[i] < y[i];
        }
        assert(xr.drop_first() =~= xs.subrange(i + 1, xs.len() as int));
        assert(yr.drop_first() =~= ys.subrange(i + 1, ys.len() as int));
        i += 1;
    }
    i == x.len()
}

/// Lists the children `entries` of a directory that lies within `root`.
/// Each child becomes an entry with its path relative to `root` and its name;
/// children with hidden names are left out; the rest come sorted by relative
/// path, compared byte by byte. A child without an entry (one that does not
/// lie below `root`, or has no name) fails the whole listing.
pub fn ls(root: &str, entries: &Vec<DirItem>) -> (r: Result<DirectoryListing, HFMError>)
    ensures
        !listable(root@, entries@) ==> r == Err::<DirectoryListing, HFMError>(HFMError::Forbidden),
        listable(root@, entries@) ==> (r matches Ok(l) && lists(root@, entries@, l)),
        r matches Ok(l) ==> forall|i: int|
            0 <= i < l.items@.len() ==> !is_hidden_name(#[trigger] l.items@[i]@.name),
        r is Ok && distinct_paths(entries@) ==> strictly_sorted_by_path(
            item_views(r->Ok_0.items@),
        ),
{
    let mut items: Vec<data::DirItem> = Vec::new();
    let ghost es = entries@;
    let mut i: usize = 0;
    proof {
        assert(item_views(items@) =~= Seq::<DirItemView>::empty());
        assert(es.subrange(0, 0) =~= Seq::<DirItem>::empty());
    }
    while i < entries.len()
        invariant
            es == entries@,
            i <= es.len(),
            forall|k: int| 0 <= k < i ==> #[trigger] item_of(root@, es[k]) is Some,
            item_views(items@).to_multiset() == visible_items(
                root@,
                es.subrange(0, i as int),
            ).to_multiset(),
            sorted_by_path(item_views(items@)),
            forall|k: int| 0 <= k < items@.len() ==> !is_hidden_name(#[trigger] items@[k]@.name),
            forall|k: int|
                0 <= k < items@.len() ==> exists|j: int|
                    0 <= j < i && #[trigger] items@[k]@.path == relative_to(
                        root@,
                        #[trigger] es[j].spec_path(),
                    ) && is_below(root@, es[j].spec_path()),
            distinct_paths(es) ==> forall|a: int, b: int|
                0 <= a < items@.len() && 0 <= b < items@.len() && a != b
                    ==> #[trigger] items@[a]@.path != #[trigger] items@[b]@.path,
        decreases es.len() - i,
    {
        let e = &entries[i];
        let rel = match strip_root(root, e.path().as_str()) {
            Some(rel) => rel,
            None => {
                assert(item_of(root@, es[i as int]) is None);
                return Err(HFMError::Forbidden);
            },
        };
        let name = match get_last_path_component(rel.as_str()) {
            Some(name) => name,
            None => {
                assert(item_of(root@, es[i as int]) is None);
                return Err(HFMError::Forbidden);
            },
        };
        let ghost d = item_of(root@, es[i as int])->0;
        proof {
            assert(es.subrange(0, i + 1).drop_last() =~= es.subrange(0, i as int));
            assert(es.subrange(0, i + 1).last() == es[i as int]);
        }
        let hidden = name.as_str().unicode_len() > 0 && name.as_str().get_char(0) == '.';
        if !hidden {
            let item = data::DirItem { is_dir: e.is_dir(), name, path: rel };
            assert(item@ == d);
            let mut pos: usize = 0;
            while pos < items.len() && path_le_exec(items[pos].path.as_str(), item.path.as_str())
                invariant
                    pos <= items@.len(),
                    forall|k: int| 0 <= k < pos ==> path_le(#[trigger] items@[k]@.path, item@.path),
                decreases items@.len() - pos,
            {
                pos += 1;
            }
            let ghost old_items = items@;
            let ghost olds = item_views(old_items);
            proof {
                if pos < olds.len() {
                    lemma_bytes_le_total(encode_utf8(olds[pos as int].path), encode_utf8(item@.path));
                }
                // the new entry's path differs from every listed path
                if distinct_paths(es) {
                    assert forall|k: int| 0 <= k < olds.len() implies olds[k].path != item@.path by {
                        let j = choose|j: int|
                            0 <= j < i && #[trigger] old_items[k]@.path == relative_to(
                                root@,
                                #[trigger] es[j].spec_path(),
                            ) && is_below(root@, es[j].spec_path());
                        if olds[k].path == item@.path {
                            lemma_relative_injective(root@, es[j].spec_path(), es[i as int].spec_path());
                            assert(es[j].spec_path() != es[i as int].spec_path());
                        }
                    }
                }
            }
            items.insert(pos, item);
            proof {
                let news = item_views(items@);
                assert(news =~= olds.insert(pos as int, d));
                vstd::seq_lib::to_multiset_insert(olds, pos as int, d);
                assert forall|a: int, b: int| 0 <= a < b < news.len() implies path_le(
                    #[trigger] news[a].path,
                    #[trigger] news[b].path,
                ) by {
                    if a < pos && b == pos {
                    } else if a < pos && b > pos {
                        assert(news[a] == olds[a]);
                        assert(news[b] == olds[b - 1]);
                    } else if a == pos && b > pos {
                        assert(news[b] == olds[b - 1]);
                        assert(path_le(item@.path, olds[pos as int].path));
                        if b - 1 > pos {
                            lemma_bytes_le_trans(
                                encode_utf8(item@.path),
                                encode_utf8(olds[pos as int].path),
                                encode_utf8(olds[b - 1].path),
                            );
                        }
                    } else if a > pos {
                        assert(news[a] == olds[a - 1]);
                        assert(news[b] == olds[b - 1]);
                    } else {
                        assert(news[a] == olds[a]);
                        assert(news[b] == olds[b]);
                    }
                }
                assert forall|k: int| 0 <= k < items@.len() implies !is_hidden_name(
                    #[trigger] items@[k]@.name,
                ) by {
                    if k < pos {
                        assert(items@[k] == old_items[k]);
                    } else if k > pos {
                        assert(items@[k] == old_items[k - 1]);
                    }
                }
                assert forall|k: int| 0 <= k < items@.len() implies exists|j: int|
                    0 <= j < i + 1 && #[trigger] items@[k]@.path == relative_to(
                        root@,
                        #[trigger] es[j].spec_path(),
                    ) && is_below(root@, es[j].spec_path()) by {
                    if k < pos {
                        assert(items@[k] == old_items[k]);
                    } else if k > pos {
                        assert(items@[k] == old_items[k - 1]);
                    } else {
                        assert(items@[k]@.path == relative_to(root@, es[i as int].spec_path()));
                    }
                }
                if distinct_paths(es) {
                    assert forall|a: int, b: int|
                        0 <= a < items@.len() && 0 <= b < items@.len() && a != b implies #[trigger] items@[a]@.path
                        != #[trigger] items@[b]@.path by {
                        let a0 = if a < pos { a } else { a - 1 };
                        let b0 = if b < pos { b } else { b - 1 };
                        if a != pos {
                            assert(items@[a] == old_items[a0]);
                            assert(olds[a0] == old_items[a0]@);
                        } else {
                            assert(items@[a]@ == d);
                        }
                        if b != pos {
                            assert(items@[b] == old_items[b0]);
                            assert(olds[b0] == old_items[b0]@);
                        } else {
                            assert(items@[b]@ == d);
                        }
                        if a != pos && b != pos {
                            assert(old_items[a0]@.path != old_items[b0]@.path);
                        }
                    }
                }
            }
        }
        i += 1;
    }
    proof {
        assert(es.subrange(0, es.len() as int) =~= es);
        if distinct_paths(es) {
            let s = item_views(items@);
            assert forall|a: int, b: int| 0 <= a < b < s.len() implies path_le(
                #[trigger] s[a].path,
                #[trigger] s[b].path,
            ) && s[a].path != s[b].path && encode_utf8(s[a].path) != encode_utf8(s[b].path) by {
                assert(items@[a]@.path != items@[b]@.path);
                encode_utf8_decode_utf8(s[a].path);
                encode_utf8_decode_utf8(s[b].path);
            }
        }
    }
    Ok(DirectoryListing { items })
}

/// Turns what the filesystem said about a resolved `target` into the item to
/// serve: a file's path and length, or the listing of a directory's children
/// `entries` (see `ls`). A missing target is `NotFound`, unreadable metadata
/// a disk error, and anything but a file or a directory `UnknownFileType`.
pub fn get(root: &str, target: &str, stat: TargetStat, entries: &Vec<DirItem>) -> (r: Result<
    FSItem,
    HFMError,
>)
    ensures
        stat == TargetStat::Missing ==> r == Err::<FSItem, HFMError>(HFMError::NotFound),
        stat == TargetStat::Unreadable ==> r == Err::<FSItem, HFMError>(
            HFMError::DiskError { kind: DiskErrorKind::Other },
        ),
        stat == TargetStat::Other ==> r == Err::<FSItem, HFMError>(HFMError::UnknownFileType),
        stat matches TargetStat::File { size_bytes: n } ==> (r matches Ok(
            FSItem::File { path: p, size_bytes: m },
        ) && p@ == target@ && m == n),
        stat == TargetStat::Directory && !listable(root@, entries@) ==> r == Err::<
            FSItem,
            HFMError,
        >(HFMError::Forbidden),
        stat == TargetStat::Directory && listable(root@, entries@) ==> (r matches Ok(
            FSItem::Directory(l),
        ) && lists(root@, entries@, l)),
{
    match stat {
        TargetStat::Missing => Err(HFMError::NotFound),
        TargetStat::Unreadable => Err(HFMError::DiskError { kind: DiskErrorKind::Other }),
        TargetStat::Other => Err(HFMError::UnknownFileType),
        TargetStat::File { size_bytes } => Ok(FSItem::File { path: target.to_owned(), size_bytes }),
        TargetStat::Directory => match ls(root, entries) {
            Ok(l) => Ok(FSItem::Directory(l)),
            Err(e) => Err(e),
        },
    }
}

/// A forward-only walk through a file of known length, one chunk at a time.
/// Each byte is handed out in exactly one chunk, in order.
pub struct FileStream {
    length: u64,
    offset: u64,
}

impl View for FileStream {
    /// The file's length and how far the walk has got.
    type V = (u64, u64);

    closed spec fn view(&self) -> (u64, u64) {
        (self.length, self.offset)
    }
}

impl FileStream {
    #[verifier::type_invariant]
    closed spec fn inv(self) -> bool {
        self.offset <= self.length
    }

    /// A walk through a file of `length` bytes, at its start.
    pub fn new(length: u64) -> (r: FileStream)
        ensures
            r@ == (length, 0u64),
    {
        FileStream { length, offset: 0 }
    }

    /// The length reported for the file.
    pub fn length(&self) -> (r: u64)
        ensures
            r == self@.0,
    {
        self.length
    }

    /// How many bytes are still to come.
    pub fn remaining(&self) -> (r: u64)
        ensures
            self@.1 <= self@.0,
            r == self@.0 - self@.1,
    {
        proof {
            use_type_invariant(self);
        }
        self.length - self.offset
    }

    /// The next chunk, as its offset and length: as many bytes as remain, up
    /// to `max_chunk`. `None` once the whole file was handed out.
    pub fn next_chunk(&mut self, max_chunk: u64) -> (r: Option<(u64, u64)>)
        requires
            max_chunk > 0,
        ensures
            old(self)@.1 <= old(self)@.0,
            final(self)@.1 <= final(self)@.0,
            final(self)@.0 == old(self)@.0,
            old(self)@.1 == old(self)@.0 ==> r is None && final(self)@ == old(self)@,
            old(self)@.1 < old(self)@.0 ==> ({
                let n = if old(self)@.0 - old(self)@.1 < max_chunk {
                    (old(self)@.0 - old(self)@.1) as u64
                } else {
                    max_chunk
                };
                &&& r == Some((old(self)@.1, n))
                &&& final(self)@.1 == old(self)@.1 + n
            }),
    {
        proof {
            use_type_invariant(&*self);
        }
        let rest = self.length - self.offset;
        if rest == 0 {
            return None;
        }
        let n = if rest < max_chunk {
            rest
        } else {
            max_chunk
        };
        let start = self.offset;
        self.offset = start + n;
        Some((start, n))
    }
}

} // verus!
