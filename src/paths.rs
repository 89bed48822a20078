//! A textual model of slash-separated paths: segments, containment below a
//! root, and the executable operations on paths that the engine needs.

use vstd::prelude::*;

use crate::errors::HFMError;


verus! {

/// The pieces of a path between its slashes, empty pieces included:
/// "a//b/" has the segments "a", "", "b" and "".
pub open spec fn segments(s: Seq<char>) -> Seq<Seq<char>>
    decreases s.len(),
{
    if s.len() == 0 {
        seq![Seq::empty()]
    } else {
        let prev = segments(s.drop_last());
        if s.last() == '/' {
            prev.push(Seq::empty())
        } else {
            prev.update(prev.len() - 1, prev.last().push(s.last()))
        }
    }
}

/// The views of a sequence of strings.
pub open spec fn views(v: Seq<String>) -> Seq<Seq<char>> {
    v.map_values(|x: String| x@)
}

/// A segment that names something: neither empty nor the current directory.
pub open spec fn is_normal(seg: Seq<char>) -> bool {
    seg.len() > 0 && seg != seq!['.']
}

/// The parent-directory segment.
pub open spec fn is_parent(seg: Seq<char>) -> bool {
    seg == seq!['.', '.']
}

pub open spec fn has_parent_segment(s: Seq<char>) -> bool {
    exists|i: int| 0 <= i < segments(s).len() && is_parent(#[trigger] segments(s)[i])
}

pub open spec fn is_absolute(s: Seq<char>) -> bool {
    s.len() > 0 && s[0] == '/'
}

/// A requested sub-path that tries to leave the root it is resolved against:
/// it overrides the root with an absolute path, or it climbs with "..".
pub open spec fn escapes(sub: Seq<char>) -> bool {
    is_absolute(sub) || has_parent_segment(sub)
}

/// `root` followed by a separator and each normal segment of `segs`, in order.
pub open spec fn join_normal(root: Seq<char>, segs: Seq<Seq<char>>) -> Seq<char>
    decreases segs.len(),
{
    if segs.len() == 0 {
        root
    } else {
        let prev = join_normal(root, segs.drop_last());
        if is_normal(segs.last()) {
            prev + seq!['/'] + segs.last()
        } else {
            prev
        }
    }
}

/// The target that a non-escaping sub-path names below `root`.
pub open spec fn contained_target(root: Seq<char>, sub: Seq<char>) -> Seq<char> {
    join_normal(root, segments(sub))
}

/// Where the part of a path below `root` starts: past the separator that
/// follows `root`, or right after `root` when `root` ends in a separator.
pub open spec fn rel_start(root: Seq<char>) -> int {
    if root.len() > 0 && root.last() == '/' {
        root.len() as int
    } else {
        root.len() + 1int
    }
}

/// `p` lies strictly below `root`: it starts with `root` and a separator,
/// and something follows them.
pub open spec fn is_below(root: Seq<char>, p: Seq<char>) -> bool {
    &&& p.len() > rel_start(root)
    &&& p.subrange(0, root.len() as int) == root
    &&& p[rel_start(root) - 1] == '/'
}

/// The part of `p` below `root`.
pub open spec fn relative_to(root: Seq<char>, p: Seq<char>) -> Seq<char> {
    p.subrange(rel_start(root), p.len() as int)
}

/// `p` is `root` or lies below it.
pub open spec fn is_within(root: Seq<char>, p: Seq<char>) -> bool {
    p == root || is_below(root, p)
}

/// `t` is `root`, or lies below it without climbing back out through "..".
pub open spec fn is_contained(root: Seq<char>, t: Seq<char>) -> bool {
    t == root || (is_below(root, t) && !has_parent_segment(relative_to(root, t)))
}

pub proof fn lemma_segments_nonempty(s: Seq<char>)
    ensures
        segments(s).len() >= 1,
    decreases s.len(),
{
    if s.len() > 0 {
        lemma_segments_nonempty(s.drop_last());
    }
}

/// No segment holds a separator.
pub proof fn lemma_segments_slash_free(s: Seq<char>)
    ensures
        forall|k: int, i: int|
            0 <= k < segments(s).len() && 0 <= i < segments(s)[k].len() ==> #[trigger] segments(
                s,
            )[k][i] != '/',
    decreases s.len(),
{
    if s.len() > 0 {
        lemma_segments_slash_free(s.drop_last());
        lemma_segments_nonempty(s.drop_last());
    }
}

/// A path without separators is its own single segment.
pub proof fn lemma_segments_single(s: Seq<char>)
    requires
        forall|i: int| 0 <= i < s.len() ==> s[i] != '/',
    ensures
        segments(s) == seq![s],
    decreases s.len(),
{
    if s.len() == 0 {
        assert(s =~= Seq::<char>::empty());
        assert(segments(s) =~= seq![s]);
    } else {
        lemma_segments_single(s.drop_last());
        assert(s.drop_last().push(s.last()) =~= s);
        assert(segments(s) =~= seq![s]);
    }
}

/// Joining two paths with a separator concatenates their segments.
pub proof fn lemma_segments_concat(x: Seq<char>, y: Seq<char>)
    ensures
        segments(x + seq!['/'] + y) == segments(x) + segments(y),
    decreases y.len(),
{
    let s = x + seq!['/'] + y;
    if y.len() == 0 {
        assert(s.drop_last() =~= x);
        assert(segments(s) =~= segments(x) + segments(y));
    } else {
        let y0 = y.drop_last();
        lemma_segments_concat(x, y0);
        lemma_segments_nonempty(y0);
        assert(s.drop_last() =~= x + seq!['/'] + y0);
        assert(s.last() == y.last());
        assert(segments(s) =~= segments(x) + segments(y));
    }
}

proof fn lemma_no_parent_single(seg: Seq<char>)
    requires
        forall|i: int| 0 <= i < seg.len() ==> seg[i] != '/',
        !is_parent(seg),
    ensures
        !has_parent_segment(seg),
        !has_parent_segment(seq!['/'] + seg),
{
    lemma_segments_single(seg);
    let e = Seq::<char>::empty();
    lemma_segments_concat(e, seg);
    lemma_segments_single(e);
    assert(e + seq!['/'] + seg =~= seq!['/'] + seg);
    assert(segments(seq!['/'] + seg) =~= seq![e, seg]);
}

proof fn lemma_join_contained(root: Seq<char>, segs: Seq<Seq<char>>)
    requires
        forall|k: int| 0 <= k < segs.len() ==> !is_parent(#[trigger] segs[k]),
        forall|k: int, i: int| 0 <= k < segs.len() && 0 <= i < segs[k].len() ==> #[trigger] segs[k][i] != '/',
    ensures
        is_contained(root, join_normal(root, segs)),
    decreases segs.len(),
{
    if segs.len() > 0 {
        let prev = join_normal(root, segs.drop_last());
        let seg = segs.last();
        lemma_join_contained(root, segs.drop_last());
        if is_normal(seg) {
            let t = prev + seq!['/'] + seg;
            assert forall|i: int| 0 <= i < seg.len() implies seg[i] != '/' by {
                assert(segs[segs.len() - 1][i] != '/');
            }
            assert(!is_parent(segs[segs.len() - 1]));
            lemma_no_parent_single(seg);
            assert(t.subrange(0, root.len() as int) =~= prev.subrange(0, root.len() as int));
            if prev == root {
                if root.len() > 0 && root.last() == '/' {
                    assert(relative_to(root, t) =~= seq!['/'] + seg);
                } else {
                    assert(relative_to(root, t) =~= seg);
                }
                assert(t.subrange(0, root.len() as int) =~= root);
            } else {
                let rel = relative_to(root, prev);
                assert(relative_to(root, t) =~= rel + seq!['/'] + seg);
                lemma_segments_concat(rel, seg);
                lemma_segments_single(seg);
                assert forall|i: int|
                    0 <= i < segments(relative_to(root, t)).len() implies !is_parent(
                    #[trigger] segments(relative_to(root, t))[i],
                ) by {
                    if i < segments(rel).len() {
                        assert(segments(relative_to(root, t))[i] == segments(rel)[i]);
                    }
                }
            }
        }
    }
}

/// Whatever a non-escaping sub-path is, the target it names stays within
/// the root it is resolved against.
pub proof fn lemma_contained_target_within_root(root: Seq<char>, sub: Seq<char>)
    requires
        !escapes(sub),
    ensures
        is_contained(root, contained_target(root, sub)),
{
    lemma_segments_slash_free(sub);
    lemma_join_contained(root, segments(sub));
}

/// Splits a path at its separators.
pub fn split_segments(s: &str) -> (r: Vec<String>)
    ensures
        views(r@) == segments(s@),
{
    let n = s.unicode_len();
    let mut v: Vec<String> = Vec::new();
    let mut start: usize = 0;
    let mut i: usize = 0;
    proof {
        assert(views(v@) =~= Seq::<Seq<char>>::empty());
        assert(s@.subrange(0, 0) =~= Seq::<char>::empty());
        assert(views(v@).push(s@.subrange(0, 0)) =~= segments(s@.subrange(0, 0)));
    }
    while i < n
        invariant
            n == s@.len(),
            start <= i <= n,
            views(v@).push(s@.subrange(start as int, i as int)) == segments(
                s@.subrange(0, i as int),
            ),
        decreases n - i,
    {
        let c = s.get_char(i);
        proof {
            assert(s@.subrange(0, i + 1).drop_last() =~= s@.subrange(0, i as int));
            assert(s@.subrange(0, i + 1).last() == c);
        }
        if c == '/' {
            let piece = s.substring_char(start, i).to_owned();
            let ghost prev = v@;
            v.push(piece);
            proof {
                assert(views(v@) =~= views(prev).push(s@.subrange(start as int, i as int)));
            }
            start = i + 1;
            proof {
                assert(s@.subrange(start as int, start as int) =~= Seq::<char>::empty());
            }
        } else {
            proof {
                assert(s@.subrange(start as int, i as int).push(c) =~= s@.subrange(
                    start as int,
                    i + 1,
                ));
                assert(views(v@).push(s@.subrange(start as int, i + 1)) =~= segments(
                    s@.subrange(0, i + 1),
                ));
            }
        }
        i += 1;
    }
    let piece = s.substring_char(start, n).to_owned();
    let ghost prev = v@;
    v.push(piece);
    proof {
        assert(s@.subrange(0, n as int) =~= s@);
        assert(views(v@) =~= views(prev).push(s@.subrange(start as int, n as int)));
    }
    v
}


/// The last segment of `segs` that names something, if any.
pub open spec fn last_normal(segs: Seq<Seq<char>>) -> Option<Seq<char>>
    decreases segs.len(),
{
    if segs.len() == 0 {
        None
    } else if is_normal(segs.last()) {
        Some(segs.last())
    } else {
        last_normal(segs.drop_last())
    }
}

/// The last component of a path, walking its components as std's `Path`
/// does: its last segment that is neither empty nor ".", so that "a/b/" and
/// "a/b/." both end in "b". A path with no such segment ends in its root
/// "/" when it is absolute, in its leading "." when it is relative and not
/// empty ("." or "./"), and has no component when it is empty.
pub open spec fn last_component(s: Seq<char>) -> Option<Seq<char>> {
    match last_normal(segments(s)) {
        Some(c) => Some(c),
        None => if s.len() == 0 {
            None
        } else if s[0] == '/' {
            Some(seq!['/'])
        } else {
            Some(seq!['.'])
        },
    }
}

/// A name that the hidden-file convention hides: one that starts with ".".
pub open spec fn is_hidden_name(name: Seq<char>) -> bool {
    name.len() > 0 && name[0] == '.'
}

/// A path whose last component is a hidden name.
pub open spec fn path_is_hidden(path: Seq<char>) -> bool {
    match last_component(path) {
        Some(c) => is_hidden_name(c),
        None => false,
    }
}

/// `path` made absolute against the working directory `cwd`: an absolute
/// path stays as it is, a relative one is appended to `cwd` after a
/// separator (none is added when `cwd` already ends in one).
pub open spec fn absolutized(path: Seq<char>, cwd: Seq<char>) -> Seq<char> {
    if is_absolute(path) {
        path
    } else if cwd.len() > 0 && cwd.last() == '/' {
        cwd + path
    } else {
        cwd + seq!['/'] + path
    }
}

pub fn is_normal_segment(seg: &str) -> (r: bool)
    ensures
        r == is_normal(seg@),
{
    let n = seg.unicode_len();
    if n == 0 {
        false
    } else if n == 1 && seg.get_char(0) == '.' {
        assert(seg@ =~= seq!['.']);
        false
    } else {
        assert(seg@ != seq!['.']) by {
            if n == 1 {
                assert(seq!['.'][0] == '.');
            }
        }
        true
    }
}

pub fn is_parent_segment(seg: &str) -> (r: bool)
    ensures
        r == is_parent(seg@),
{
    if seg.unicode_len() == 2 && seg.get_char(0) == '.' && seg.get_char(1) == '.' {
        assert(seg@ =~= seq!['.', '.']);
        true
    } else {
        assert(seg@ != seq!['.', '.']) by {
            if seg@.len() == 2 {
                assert(seq!['.', '.'][0] == '.' && seq!['.', '.'][1] == '.');
            }
        }
        false
    }
}

/// Whether `p` begins with `prefix`.
pub fn starts_with_chars(p: &str, prefix: &str) -> (r: bool)
    ensures
        r == (prefix@.len() <= p@.len() && p@.subrange(0, prefix@.len() as int) == prefix@),
{
    let n = prefix.unicode_len();
    if p.unicode_len() < n {
        return false;
    }
    let mut i: usize = 0;
    while i < n
        invariant
            n == prefix@.len(),
            n <= p@.len(),
            i <= n,
            forall|k: int| 0 <= k < i ==> p@[k] == prefix@[k],
        decreases n - i,
    {
        if p.get_char(i) != prefix.get_char(i) {
            assert(p@.subrange(0, n as int)[i as int] != prefix@[i as int]);
            return false;
        }
        i += 1;
    }
    assert(p@.subrange(0, n as int) =~= prefix@);
    true
}

/// Resolves `sub_path` against `root`, refusing any sub-path that would
/// leave it: an absolute sub-path, or one with a ".." segment. Empty and "."
/// segments are dropped; the target is `root` followed by the remaining
/// segments, each after a separator.
pub fn contain(root: &str, sub_path: &str) -> (r: Result<String, HFMError>)
    ensures
        escapes(sub_path@) ==> r == Err::<String, HFMError>(HFMError::Forbidden),
        !escapes(sub_path@) ==> (r matches Ok(t) && t@ == contained_target(root@, sub_path@)),
        r matches Ok(t) ==> is_contained(root@, t@),
{
    if sub_path.unicode_len() > 0 && sub_path.get_char(0) == '/' {
        return Err(HFMError::Forbidden);
    }
    let segs = split_segments(sub_path);
    let ghost all = views(segs@);
    let mut i: usize = 0;
    while i < segs.len()
        invariant
            i <= segs@.len(),
            all == views(segs@),
            all == segments(sub_path@),
            forall|k: int| 0 <= k < i ==> !is_parent(#[trigger] all[k]),
        decreases segs@.len() - i,
    {
        if is_parent_segment(segs[i].as_str()) {
            assert(is_parent(segments(sub_path@)[i as int]));
            return Err(HFMError::Forbidden);
        }
        i += 1;
    }
    assert(!has_parent_segment(sub_path@));
    let mut t = root.to_owned();
    let mut j: usize = 0;
    proof {
        assert(all.subrange(0, 0) =~= Seq::<Seq<char>>::empty());
        reveal_strlit("/");
    }
    while j < segs.len()
        invariant
            j <= segs@.len(),
            all == views(segs@),
            t@ == join_normal(root@, all.subrange(0, j as int)),
            "/"@ == seq!['/'],
        decreases segs@.len() - j,
    {
        let seg = &segs[j];
        proof {
            assert(all.subrange(0, j + 1).drop_last() =~= all.subrange(0, j as int));
            assert(all.subrange(0, j + 1).last() == seg@);
        }
        if is_normal_segment(seg.as_str()) {
            t.append("/");
            t.append(seg.as_str());
        }
        j += 1;
    }
    proof {
        assert(all.subrange(0, segs@.len() as int) =~= all);
        lemma_contained_target_within_root(root@, sub_path@);
    }
    Ok(t)
}

/// The part of `p` below `root`, when `p` lies strictly below it.
pub fn strip_root(root: &str, p: &str) -> (r: Option<String>)
    ensures
        r matches Some(rel) ==> is_below(root@, p@) && rel@ == relative_to(root@, p@),
        r is None ==> !is_below(root@, p@),
{
    let n = root.unicode_len();
    let m = p.unicode_len();
    if !starts_with_chars(p, root) {
        return None;
    }
    let start: usize = if n > 0 && root.get_char(n - 1) == '/' {
        n
    } else {
        if n == m || p.get_char(n) != '/' {
            return None;
        }
        n + 1
    };
    if start >= m {
        return None;
    }
    proof {
        if n > 0 && root@.last() == '/' {
            assert(p@[n - 1] == p@.subrange(0, n as int)[n - 1]);
        }
    }
    Some(p.substring_char(start, m).to_owned())
}

/// Whether `p` is `root` itself or lies below it.
pub fn is_within_root(root: &str, p: &str) -> (r: bool)
    ensures
        r == is_within(root@, p@),
{
    let below = strip_root(root, p);
    if below.is_some() {
        return true;
    }
    let n = root.unicode_len();
    if p.unicode_len() == n && starts_with_chars(p, root) {
        assert(p@ =~= p@.subrange(0, n as int));
        return true;
    }
    proof {
        if p@ == root@ {
            assert(p@.subrange(0, n as int) =~= root@);
        }
    }
    false
}

} // verus!
