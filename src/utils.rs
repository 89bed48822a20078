//! Small helpers: share-code generation, path names and hidden files.

use vstd::prelude::*;

use rand::Rng;

use crate::paths::{
    absolutized, is_normal_segment, last_component, last_normal, path_is_hidden,
    segments, split_segments, views,
};

pub use crate::errors::HFMError;

verus! {

/// How many characters a generated share code has.
pub const CODE_LEN: usize = 8;

/// The characters a generated share code is drawn from.
pub open spec fn code_alphabet() -> Seq<char> {
    "abcdefghijklmnopqrstuvwxyz0123456789"@
}

/// Relies on rand's `thread_rng` and `Rng::gen_range`: a number drawn from
/// `0..n`. `gen_range` panics on an empty range, hence `n > 0`.
#[verifier::external_body]
fn random_index(n: usize) -> (r: usize)
    requires
        n > 0,
    ensures
        r < n,
{
    rand::thread_rng().gen_range(0..n)
}

/// Relies on std's `String::push`: appends one character.
#[verifier::external_body]
fn push_char(s: &mut String, c: char)
    ensures
        final(s)@ == old(s)@.push(c),
{
    s.push(c)
}

/// The characters of `s`, in order.
pub fn chars_of(s: &str) -> (r: Vec<char>)
    ensures
        r@ == s@,
{
    let n = s.unicode_len();
    let mut out: Vec<char> = Vec::new();
    let mut i: usize = 0;
    while i < n
        invariant
            n == s@.len(),
            i <= n,
            out@ == s@.subrange(0, i as int),
        decreases n - i,
    {
        out.push(s.get_char(i));
        proof {
            assert(out@ =~= s@.subrange(0, i + 1));
        }
        i += 1;
    }
    assert(s@.subrange(0, n as int) =~= s@);
    out
}

/// The items of `alphabet` at the positions `idx`, in order.
pub open spec fn picked<T>(alphabet: Seq<T>, idx: Seq<usize>) -> Seq<T> {
    idx.map_values(|k: usize| alphabet[k as int])
}

/// The characters of the code alphabet at the positions `idx`, in order.
pub open spec fn spelled(idx: Seq<usize>) -> Seq<char> {
    picked(code_alphabet(), idx)
}

/// `n` numbers drawn uniformly, with replacement, from `0..bound`.
pub fn draw_indices(bound: usize, n: usize) -> (r: Vec<usize>)
    requires
        bound > 0,
    ensures
        r.len() == n,
        forall|i: int| 0 <= i < n ==> #[trigger] r@[i] < bound,
{
    let mut out: Vec<usize> = Vec::new();
    let mut k: usize = 0;
    while k < n
        invariant
            bound > 0,
            k <= n,
            out.len() == k,
            forall|i: int| 0 <= i < k ==> #[trigger] out@[i] < bound,
        decreases n - k,
    {
        out.push(random_index(bound));
        k += 1;
    }
    out
}

/// The items of `alphabet` at the positions `idx`, in order.
pub fn pick<T: Copy>(alphabet: &Vec<T>, idx: &Vec<usize>) -> (r: Vec<T>)
    requires
        forall|i: int| 0 <= i < idx@.len() ==> #[trigger] idx@[i] < alphabet@.len(),
    ensures
        r@ == picked(alphabet@, idx@),
{
    let mut out: Vec<T> = Vec::new();
    let mut k: usize = 0;
    while k < idx.len()
        invariant
            k <= idx@.len(),
            forall|i: int| 0 <= i < idx@.len() ==> #[trigger] idx@[i] < alphabet@.len(),
            out@ == picked(alphabet@, idx@.subrange(0, k as int)),
        decreases idx@.len() - k,
    {
        let item: T = alphabet[idx[k]];
        out.push(item);
        proof {
            assert(out@ =~= picked(alphabet@, idx@.subrange(0, k + 1)));
        }
        k += 1;
    }
    assert(idx@.subrange(0, idx@.len() as int) =~= idx@);
    out
}

/// `num` items drawn uniformly, with replacement, from `alphabet`: item `i`
/// is `alphabet[idx[i]]` for `num` drawn positions `idx`.
pub fn sample_with_replacement<T: Copy>(alphabet: Vec<T>, num: usize) -> (r: Vec<T>)
    requires
        alphabet.len() > 0,
    ensures
        r.len() == num,
        exists|idx: Seq<usize>|
            idx.len() == num && (forall|i: int| 0 <= i < num ==> #[trigger] idx[i] < alphabet@.len())
                && r@ == #[trigger] picked(alphabet@, idx),
{
    let idx = draw_indices(alphabet.len(), num);
    pick(&alphabet, &idx)
}

/// The share code spelled by the positions `idx` in the code alphabet.
pub fn code_from_indices(idx: &Vec<usize>) -> (r: String)
    requires
        forall|i: int| 0 <= i < idx@.len() ==> #[trigger] idx@[i] < code_alphabet().len(),
    ensures
        r@ == spelled(idx@),
{
    let alphabet_str = "abcdefghijklmnopqrstuvwxyz0123456789";
    let alphabet = chars_of(alphabet_str);
    let picked = pick(&alphabet, idx);
    let mut code = String::new();
    let mut k: usize = 0;
    while k < picked.len()
        invariant
            k <= picked@.len(),
            code@ == picked@.subrange(0, k as int),
        decreases picked@.len() - k,
    {
        push_char(&mut code, picked[k]);
        proof {
            assert(code@ =~= picked@.subrange(0, k + 1));
        }
        k += 1;
    }
    assert(picked@.subrange(0, picked@.len() as int) =~= picked@);
    code
}

/// A fresh share code: `CODE_LEN` characters drawn uniformly, with
/// replacement, from lower-case letters and digits. It is not checked
/// against existing codes.
pub fn generate_code() -> (r: String)
    ensures
        r@.len() == CODE_LEN,
        forall|i: int| 0 <= i < r@.len() ==> code_alphabet().contains(#[trigger] r@[i]),
        exists|idx: Seq<usize>|
            idx.len() == CODE_LEN && (forall|i: int|
                0 <= i < CODE_LEN ==> #[trigger] idx[i] < code_alphabet().len()) && r@
                == #[trigger] spelled(idx),
{
    proof {
        reveal_strlit("abcdefghijklmnopqrstuvwxyz0123456789");
    }
    let idx = draw_indices(36, CODE_LEN);
    let code = code_from_indices(&idx);
    assert forall|i: int| 0 <= i < code@.len() implies code_alphabet().contains(#[trigger] code@[i]) by {
        assert(code@[i] == code_alphabet()[idx@[i] as int]);
    }
    code
}

/// The last component of a path, as `last_component` describes it.
pub fn get_last_path_component(path: &str) -> (r: Option<String>)
    ensures
        r matches Some(c) ==> last_component(path@) == Some(c@),
        r is None ==> last_component(path@) is None,
{
    let segs = split_segments(path);
    let ghost all = views(segs@);
    let mut j: usize = segs.len();
    proof {
        assert(all.subrange(0, j as int) =~= all);
    }
    while j > 0
        invariant
            j <= segs@.len(),
            all == views(segs@),
            all == segments(path@),
            last_normal(all) == last_normal(all.subrange(0, j as int)),
        decreases j,
    {
        let seg = &segs[j - 1];
        let ghost pre = all.subrange(0, j as int);
        proof {
            assert(pre.last() == seg@);
            assert(pre.drop_last() =~= all.subrange(0, j - 1));
        }
        if is_normal_segment(seg.as_str()) {
            return Some(seg.clone());
        }
        j -= 1;
    }
    assert(all.subrange(0, 0) =~= Seq::<Seq<char>>::empty());
    if path.unicode_len() == 0 {
        None
    } else if path.get_char(0) == '/' {
        proof {
            reveal_strlit("/");
        }
        Some("/".to_owned())
    } else {
        proof {
            reveal_strlit(".");
        }
        Some(".".to_owned())
    }
}

/// Whether a path names a hidden file: its last component starts with ".".
/// Dots in earlier components do not count.
pub fn is_hidden(path: &str) -> (r: bool)
    ensures
        r == path_is_hidden(path@),
{
    match get_last_path_component(path) {
        Some(c) => c.as_str().unicode_len() > 0 && c.as_str().get_char(0) == '.',
        None => false,
    }
}

/// `path` made absolute against the working directory `cwd`.
pub fn absolutize(path: &str, cwd: &str) -> (r: String)
    ensures
        r@ == absolutized(path@, cwd@),
{
    if path.unicode_len() > 0 && path.get_char(0) == '/' {
        return path.to_owned();
    }
    let mut out = cwd.to_owned();
    let n = cwd.unicode_len();
    if !(n > 0 && cwd.get_char(n - 1) == '/') {
        push_char(&mut out, '/');
    }
    out.append(path);
    out
}

} // verus!
