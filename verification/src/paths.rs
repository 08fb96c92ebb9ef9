//! Unix file paths as text.
use crate::text::{chars_of, opt_text, same, split_at_char, split_char, string_of, texts};
use vstd::prelude::*;

verus! {

/// The last of the pieces that name something; empty ones and `.` do not.
pub open spec fn last_name(pieces: Seq<Seq<char>>) -> Option<Seq<char>>
    decreases pieces.len(),
{
    if pieces.len() == 0 {
        None
    } else if pieces.last() == Seq::<char>::empty() || pieces.last() == "."@ {
        last_name(pieces.drop_last())
    } else {
        Some(pieces.last())
    }
}

/// The name of the file that a path leads to; none where the path ends in `..` or names
/// nothing.
pub open spec fn file_name_of(path: Seq<char>) -> Option<Seq<char>> {
    match last_name(split_char(path, '/')) {
        Some(name) => if name == ".."@ {
            None
        } else {
            Some(name)
        },
        None => None,
    }
}

/// The name of the file that a path leads to.
pub fn file_name(path: &str) -> (r: Option<String>)
    ensures
        opt_text(r) == file_name_of(path@),
{
    let pieces: Vec<String> = split_at_char(path, '/');
    let ghost all = split_char(path@, '/');
    let mut i: usize = pieces.len();
    assert(all.take(i as int) == all);
    while i > 0
        invariant
            i <= pieces@.len(),
            texts(pieces@) == all,
            all == split_char(path@, '/'),
            last_name(all.take(i as int)) == last_name(all),
        decreases i,
    {
        let ghost t = all.take(i as int);
        let piece: &str = pieces[i - 1].as_str();
        proof {
            assert(t.last() == piece@);
            assert(t.drop_last() == all.take(i - 1));
            assert(piece@.len() == 0 ==> piece@ == Seq::<char>::empty());
        }
        if !piece.is_empty() && !same(piece, ".") {
            if same(piece, "..") {
                return None;
            }
            return Some(pieces[i - 1].clone());
        }
        i = i - 1;
    }
    assert(all.take(0) == Seq::<Seq<char>>::empty());
    None
}

/// The position of the last `c` in `s`, or -1.
pub open spec fn last_pos(s: Seq<char>, c: char) -> int
    decreases s.len(),
{
    if s.len() == 0 {
        -1
    } else if s.last() == c {
        s.len() - 1
    } else {
        last_pos(s.drop_last(), c)
    }
}

/// A file name without its extension: what stands before the last dot, unless nothing does.
pub open spec fn stem_of(name: Seq<char>) -> Seq<char> {
    if last_pos(name, '.') <= 0 {
        name
    } else {
        name.take(last_pos(name, '.'))
    }
}

/// The extension of a file name: what stands after the last dot, unless nothing stands
/// before it.
pub open spec fn extension_of(name: Seq<char>) -> Option<Seq<char>> {
    if last_pos(name, '.') <= 0 {
        None
    } else {
        Some(name.skip(last_pos(name, '.') + 1))
    }
}

/// The position of the last dot, where something stands before it.
fn dot_pos(v: &Vec<char>) -> (r: Option<usize>)
    ensures
        match r {
            Some(p) => p == last_pos(v@, '.') && 0 < p < v@.len(),
            None => last_pos(v@, '.') <= 0,
        },
{
    let mut i: usize = v.len();
    assert(v@.take(i as int) == v@);
    while i > 0
        invariant
            i <= v@.len(),
            last_pos(v@.take(i as int), '.') == last_pos(v@, '.'),
        decreases i,
    {
        let ghost t = v@.take(i as int);
        assert(t.drop_last() == v@.take(i - 1));
        if v[i - 1] == '.' {
            if i == 1 {
                return None;
            }
            return Some(i - 1);
        }
        i = i - 1;
    }
    assert(v@.take(0) == Seq::<char>::empty());
    None
}

/// A file name without its extension.
pub fn file_stem(name: &str) -> (r: String)
    ensures
        r@ == stem_of(name@),
{
    let v: Vec<char> = chars_of(name);
    match dot_pos(&v) {
        Some(p) => string_of(v.as_slice(), 0, p),
        None => name.to_string(),
    }
}

/// The extension of a file name.
pub fn extension(name: &str) -> (r: Option<String>)
    ensures
        opt_text(r) == extension_of(name@),
{
    let v: Vec<char> = chars_of(name);
    let n: usize = v.len();
    match dot_pos(&v) {
        Some(p) => {
            let ext: String = string_of(v.as_slice(), p + 1, n);
            assert(ext@ == name@.skip(p + 1));
            Some(ext)
        },
        None => None,
    }
}

/// `tail` as seen from `base`: `tail` itself where it is absolute.
pub open spec fn joined(base: Seq<char>, tail: Seq<char>) -> Seq<char> {
    if tail.len() > 0 && tail[0] == '/' {
        tail
    } else if base.len() == 0 || base.last() == '/' {
        base + tail
    } else {
        base + "/"@ + tail
    }
}

/// `tail` as seen from `base`.
pub fn join_path(base: &str, tail: &str) -> (r: String)
    ensures
        r@ == joined(base@, tail@),
{
    let t: Vec<char> = chars_of(tail);
    if t.len() > 0 && t[0] == '/' {
        return tail.to_string();
    }
    let b: Vec<char> = chars_of(base);
    let mut out: String = base.to_string();
    if b.len() > 0 && b[b.len() - 1] != '/' {
        out.append("/");
    }
    out.append(tail);
    out
}

} // verus!
