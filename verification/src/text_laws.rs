//! What reading a text comes to: where its lines and words lie, what trimming takes off, and
//! what a file name is.
use crate::number::{digits_value, i32_value, i64_value, int_text, int_value, is_digit, lemma_nat_text, nat_text, u32_value};
use crate::order::last_n;
use crate::paths::{extension_of, file_name_of, joined, last_pos, stem_of};
use crate::strmap::{bytes_before, text_before};
use crate::text::{contains_part, is_space, lemma_char_pos_is, lemma_lines_first, lemma_split_char_first, lemma_split_char_last, lemma_split_char_none, lemma_trim_end_take, lemma_trim_of_trimmed, lemma_trim_start_skip, lemma_words_first, lemma_words_skip, lines, lower, part_at, split_char, split_once, starts_with, texts, trim, trim_end, trim_start, words};
use vstd::prelude::*;
use vstd::utf8::encode_utf8;

verus! {

// ---------------------------------------------------------------------------
// Lines and words

/// A text is read line by line: what stands before a `\n` is a line, without one `\r` at its
/// end, and the lines of what follows come after it. What follows the last `\n` is a line as
/// it is, unless it is empty.
pub proof fn law_lines(line: Seq<char>, rest: Seq<char>)
    requires
        forall|j: int| 0 <= j < line.len() ==> #[trigger] line[j] != '\n',
    ensures
        lines(Seq::<char>::empty()) == Seq::<Seq<char>>::empty(),
        line.len() > 0 ==> lines(line) == seq![line],
        lines(line + seq!['\r', '\n'] + rest) == seq![line] + lines(rest),
        line.len() == 0 || line.last() != '\r' ==> lines(line + seq!['\n'] + rest) == seq![line] + lines(rest),
{
    lemma_char_pos_is(line, '\n', line.len() as int);
    let with_cr = line.push('\r');
    assert forall|j: int| 0 <= j < with_cr.len() implies with_cr[j] != '\n' by {
        if j < line.len() {
            assert(with_cr[j] == line[j]);
        }
    }
    assert(line + seq!['\r', '\n'] + rest == with_cr + seq!['\n'] + rest);
    lemma_lines_first(with_cr, rest);
    assert(with_cr.drop_last() == line);
    lemma_lines_first(line, rest);
}

/// White space is what Unicode says it is.
pub proof fn law_white_space(c: char)
    ensures
        is_space(c) == ({
            let n = c as int;
            9 <= n <= 13 || n == 32 || n == 0x85 || n == 0xa0 || n == 0x1680 || 0x2000 <= n <= 0x200a || n
                == 0x2028 || n == 0x2029 || n == 0x202f || n == 0x205f || n == 0x3000
        }),
{
}

/// Trimming takes off the white space at both ends, and nothing else.
pub proof fn law_trim(before: Seq<char>, s: Seq<char>, after: Seq<char>)
    requires
        forall|j: int| 0 <= j < before.len() ==> is_space(#[trigger] before[j]),
        forall|j: int| 0 <= j < after.len() ==> is_space(#[trigger] after[j]),
        s.len() == 0 || (!is_space(s[0]) && !is_space(s[s.len() - 1])),
    ensures
        trim(before + s + after) == s,
        s.len() > 0 ==> trim_start(before + s + after) == s + after,
        trim_end(before + s) == if s.len() == 0 {
            Seq::empty()
        } else {
            before + s
        },
{
    let t = before + s + after;
    let n = before.len() as int;
    assert forall|j: int| 0 <= j < n implies is_space(t[j]) by {
        assert(t[j] == before[j]);
    }
    lemma_trim_start_skip(t, n);
    let u = t.skip(n);
    assert(u == s + after);
    if s.len() == 0 {
        assert(u == after);
        assert forall|j: int| 0 <= j < u.len() implies is_space(u[j]) by {}
        lemma_trim_start_skip(u, u.len() as int);
        assert(u.skip(u.len() as int) == Seq::<char>::empty());
        assert(trim(t) == s);
        let b = before + s;
        assert(b == before);
        assert forall|j: int| 0 <= j < b.len() implies is_space(b[j]) by {}
        lemma_trim_end_take(b, 0);
        assert(b.take(0) == Seq::<char>::empty());
    } else {
        assert(u[0] == s[0]);
        assert(trim_start(u) == u);
        assert forall|j: int| s.len() <= j < u.len() implies is_space(u[j]) by {
            assert(u[j] == after[j - s.len()]);
        }
        lemma_trim_end_take(u, s.len() as int);
        assert(u.take(s.len() as int) == s);
        lemma_trim_of_trimmed(s);
        assert((before + s).last() == s.last());
    }
}

/// A text is read word by word: white space holds no word, and a longest part without white
/// space is one.
pub proof fn law_words(space: Seq<char>, word: Seq<char>, rest: Seq<char>)
    requires
        forall|j: int| 0 <= j < space.len() ==> is_space(#[trigger] space[j]),
        forall|j: int| 0 <= j < word.len() ==> !is_space(#[trigger] word[j]),
        word.len() > 0,
        rest.len() > 0 ==> is_space(rest[0]),
    ensures
        words(space) == Seq::<Seq<char>>::empty(),
        words(space + word + rest) == seq![word] + words(rest),
{
    lemma_words_skip(space, space.len() as int);
    assert(space.skip(space.len() as int) == Seq::<char>::empty());
    assert(words(Seq::<char>::empty()) == Seq::<Seq<char>>::empty());
    let s = space + word + rest;
    let n = space.len() as int;
    assert forall|j: int| 0 <= j < n implies is_space(s[j]) by {
        assert(s[j] == space[j]);
    }
    lemma_words_skip(s, n);
    let t = s.skip(n);
    assert(t == word + rest);
    let k = word.len() as int;
    assert forall|j: int| 0 <= j < k implies !is_space(t[j]) by {
        assert(t[j] == word[j]);
    }
    if rest.len() > 0 {
        assert(t[k] == rest[0]);
    }
    lemma_words_first(t, k);
    assert(t.take(k) == word);
    assert(t.skip(k) == rest);
}

/// A text is cut at the first `c`; one without `c` is not cut.
pub proof fn law_split(a: Seq<char>, c: char, b: Seq<char>)
    requires
        !a.contains(c),
    ensures
        split_once(a + seq![c] + b, c) == Some((a, b)),
        split_once(a, c) is None,
        split_char(a + seq![c] + b, c) == seq![a] + split_char(b, c),
        split_char(a, c) == seq![a],
{
    assert forall|j: int| 0 <= j < a.len() implies a[j] != c by {
        assert(a.contains(a[j]));
    }
    lemma_split_char_first(a, b, c);
    lemma_split_char_none(a, c);
}

// ---------------------------------------------------------------------------
// Parts and letters

/// A text holds a part exactly where it is made of something, the part, and something else;
/// it starts with one where nothing stands before it.
pub proof fn law_parts(s: Seq<char>, p: Seq<char>)
    ensures
        contains_part(s, p) == exists|a: Seq<char>, b: Seq<char>| s == #[trigger] (a + p + b),
        starts_with(s, p) == exists|b: Seq<char>| s == #[trigger] (p + b),
{
    if contains_part(s, p) {
        let k = choose|k: int| part_at(s, p, k);
        let a = s.take(k);
        let b = s.skip(k + p.len());
        assert(s == a + p + b) by {
            assert(s.subrange(k, k + p.len()) == p);
            assert forall|i: int| 0 <= i < s.len() implies s[i] == (a + p + b)[i] by {
                if k <= i < k + p.len() {
                    assert(s.subrange(k, k + p.len())[i - k] == s[i]);
                }
            }
        }
    }
    if exists|a: Seq<char>, b: Seq<char>| s == #[trigger] (a + p + b) {
        let (a, b) = choose|a: Seq<char>, b: Seq<char>| s == #[trigger] (a + p + b);
        assert(s.subrange(a.len() as int, (a.len() + p.len()) as int) == p);
        assert(part_at(s, p, a.len() as int));
    }
    if starts_with(s, p) {
        let b = s.skip(p.len() as int);
        assert(s == p + b) by {
            assert forall|i: int| 0 <= i < s.len() implies s[i] == (p + b)[i] by {
                if i < p.len() {
                    assert(s.take(p.len() as int)[i] == s[i]);
                }
            }
        }
    }
    if exists|b: Seq<char>| s == #[trigger] (p + b) {
        let b = choose|b: Seq<char>| s == #[trigger] (p + b);
        assert(s.take(p.len() as int) == p);
    }
}

/// The letters `A` to `Z` become small ones, and every other character stays.
pub proof fn law_lower(s: Seq<char>)
    ensures
        lower(s).len() == s.len(),
        forall|i: int|
            0 <= i < s.len() ==> (#[trigger] lower(s)[i]) as int == if 65 <= s[i] as int && s[i] as int <= 90 {
                s[i] as int + 32
            } else {
                s[i] as int
            },
{
    assert forall|i: int| 0 <= i < s.len() implies (#[trigger] lower(s)[i]) as int == if 65 <= s[i] as int
        && s[i] as int <= 90 {
        s[i] as int + 32
    } else {
        s[i] as int
    } by {
        lemma_lower_char(s[i]);
    }
}

proof fn lemma_lower_char(c: char)
    ensures
        crate::text::lower_char(c) as int == if 65 <= c as int && c as int <= 90 {
            c as int + 32
        } else {
            c as int
        },
{
}

/// The last elements of a list: no more than `n`, and all where there are no more.
pub proof fn law_last_n<A>(s: Seq<A>, n: int)
    requires
        n >= 0,
    ensures
        last_n(s, n).len() == if s.len() > n {
            n
        } else {
            s.len() as int
        },
        exists|dropped: Seq<A>| s == #[trigger] (dropped + last_n(s, n)),
{
    let dropped = s.take(s.len() - last_n(s, n).len());
    assert(s == dropped + last_n(s, n));
}

// ---------------------------------------------------------------------------
// Numbers

/// The number that digits stand for grows with each digit as decimal numbers do, and a sign
/// in front does what signs do. Nothing else is a number.
pub proof fn law_numbers_are_decimal(s: Seq<char>, d: char)
    requires
        '0' <= d <= '9',
        s.len() > 0,
        forall|i: int| 0 <= i < s.len() ==> '0' <= #[trigger] s[i] <= '9',
    ensures
        int_value(seq![d], true) == Some(d as int - 48),
        int_value(s.push(d), true) == Some(10 * int_value(s, true)->0 + (d as int - 48)),
        int_value(seq!['-'] + s, true) == Some(-int_value(s, true)->0),
        int_value(seq!['+'] + s, true) == int_value(s, true),
        int_value(seq!['+'] + s, false) == int_value(s, true),
        int_value(s, false) == int_value(s, true),
        int_value(seq!['-'] + s, false) is None,
{
    let one = seq![d];
    assert(is_digit(one[0]));
    assert(one.drop_last() == Seq::<char>::empty());
    assert(digits_value(Seq::<char>::empty()) == 0);
    assert(digits_value(one) == d as int - 48);
    let t = s.push(d);
    assert forall|i: int| 0 <= i < t.len() implies is_digit(#[trigger] t[i]) by {
        if i < s.len() {
            assert('0' <= s[i] <= '9');
        }
    }
    assert(is_digit(s[0]));
    assert(t[0] == s[0]);
    assert(t.drop_last() == s);
    assert forall|i: int| 0 <= i < s.len() implies is_digit(#[trigger] s[i]) by {
        assert('0' <= s[i] <= '9');
    }
    let m = seq!['-'] + s;
    let p = seq!['+'] + s;
    assert(m.skip(1) == s && p.skip(1) == s);
    assert(!is_digit(m[0]) && !is_digit(p[0]));
}

/// A text with anything but digits behind its first character is no number, nor is one whose
/// first character is neither a digit nor a sign, nor a sign alone.
pub proof fn law_other_text_is_no_number(s: Seq<char>)
    requires
        s.len() == 0 || (exists|i: int| 1 <= i < s.len() && !('0' <= #[trigger] s[i] <= '9')) || (!('0' <= s[0]
            <= '9') && s[0] != '+' && s[0] != '-') || (s.len() == 1 && !('0' <= s[0] <= '9')),
    ensures
        int_value(s, true) is None,
        int_value(s, false) is None,
{
    if s.len() > 0 {
        let t = s.skip(1);
        if exists|i: int| 1 <= i < s.len() && !('0' <= #[trigger] s[i] <= '9') {
            let i = choose|i: int| 1 <= i < s.len() && !('0' <= #[trigger] s[i] <= '9');
            assert(t[i - 1] == s[i]);
            assert(!is_digit(t[i - 1]) && !is_digit(s[i]));
        } else {
            assert(!is_digit(s[0]));
        }
    }
}

/// A number is read where it fits its type, and nowhere else.
pub proof fn law_numbers_fit(s: Seq<char>)
    ensures
        i64_value(s) == match int_value(s, true) {
            Some(n) => if -0x8000_0000_0000_0000 <= n <= 0x7fff_ffff_ffff_ffff {
                Some(n)
            } else {
                None
            },
            None => None,
        },
        i32_value(s) == match int_value(s, true) {
            Some(n) => if -0x8000_0000 <= n <= 0x7fff_ffff {
                Some(n)
            } else {
                None
            },
            None => None,
        },
        u32_value(s) == match int_value(s, false) {
            Some(n) => if 0 <= n <= 0xffff_ffff {
                Some(n)
            } else {
                None
            },
            None => None,
        },
{
    if let Some(n) = int_value(s, false) {
        lemma_digits_not_negative(s);
        lemma_digits_not_negative(s.skip(1));
    }
}

proof fn lemma_digits_not_negative(s: Seq<char>)
    ensures
        crate::number::all_digits(s) ==> digits_value(s) >= 0,
    decreases s.len(),
{
    if s.len() > 1 && crate::number::all_digits(s) {
        let t = s.drop_last();
        assert forall|i: int| 0 <= i < t.len() implies is_digit(#[trigger] t[i]) by {
            assert(is_digit(s[i]));
        }
        lemma_digits_not_negative(t);
        assert(is_digit(s.last()));
    } else if s.len() == 1 && crate::number::all_digits(s) {
        assert(s.drop_last() == Seq::<char>::empty());
        assert(digits_value(Seq::<char>::empty()) == 0);
        assert(is_digit(s[0]));
        assert(s.last() == s[0]);
    }
}

/// A number is written without zeros in front of it, and with a `-` where it is negative.
pub proof fn law_numbers_are_written_short(n: int)
    ensures
        int_text(n).len() > 0,
        n < 0 ==> int_text(n) == seq!['-'] + int_text(-n),
        n > 0 ==> '1' <= int_text(n)[0] <= '9',
        int_text(0) == seq!['0'],
        forall|i: int| 1 <= i < int_text(n).len() ==> '0' <= #[trigger] int_text(n)[i] <= '9',
{
    if n < 0 {
        lemma_nat_text((-n) as nat);
        let t = nat_text((-n) as nat);
        assert forall|i: int| 1 <= i < int_text(n).len() implies '0' <= #[trigger] int_text(n)[i] <= '9' by {
            assert(int_text(n)[i] == t[i - 1]);
            assert(is_digit(t[i - 1]));
        }
    } else {
        lemma_nat_text(n as nat);
        assert forall|i: int| 1 <= i < int_text(n).len() implies '0' <= #[trigger] int_text(n)[i] <= '9' by {
            assert(is_digit(nat_text(n as nat)[i]));
        }
        if n > 0 {
            lemma_first_digit(n as nat);
        }
    }
}

proof fn lemma_first_digit(n: nat)
    requires
        n > 0,
    ensures
        '1' <= nat_text(n)[0] <= '9',
    decreases n,
{
    if n >= 10 {
        lemma_first_digit(n / 10);
        lemma_nat_text(n / 10);
        assert(nat_text(n)[0] == nat_text(n / 10)[0]);
    }
}

// ---------------------------------------------------------------------------
// File names and the order of texts

/// The name of a file is what stands behind the last `/` of its path, however the path leads
/// there and however many `/` follow.
pub proof fn law_file_name(dir: Seq<char>, name: Seq<char>)
    requires
        name.len() > 0,
        !name.contains('/'),
        name != "."@,
        name != ".."@,
    ensures
        file_name_of(name) == Some(name),
        file_name_of(dir + seq!['/'] + name) == Some(name),
        file_name_of(dir + seq!['/']) == file_name_of(dir),
        file_name_of(dir + seq!['/', '.']) == file_name_of(dir),
        file_name_of(dir + seq!['/'] + ".."@) is None,
        file_name_of(joined(dir, name)) == Some(name),
{
    reveal_strlit("..");
    reveal_strlit(".");
    reveal_strlit("/");
    assert forall|j: int| 0 <= j < name.len() implies name[j] != '/' by {
        assert(name.contains(name[j]));
    }
    let empty = Seq::<char>::empty();
    lemma_split_char_none(name, '/');
    lemma_split_char_last(dir, name, '/');
    lemma_split_char_last(dir, empty, '/');
    lemma_split_char_last(dir, ".."@, '/');
    lemma_split_char_last(dir, "."@, '/');
    assert(dir + seq!['/', '.'] == dir + seq!['/'] + "."@);
    assert(dir + seq!['/'] + empty == dir + seq!['/']);
    assert(seq![name].last() == name);
    let pieces = split_char(dir, '/');
    assert(pieces.push(name).last() == name);
    assert(pieces.push(empty).last() == empty);
    assert(pieces.push(empty).drop_last() == pieces);
    assert(pieces.push("."@).last() == "."@);
    assert(pieces.push("."@).drop_last() == pieces);
    assert(pieces.push(".."@).last() == ".."@);
    assert(".."@.len() == 2);
    assert(".."@ != "."@ && ".."@ != empty);
    let j = joined(dir, name);
    if dir.len() == 0 {
        assert(j == name);
    } else if dir.last() == '/' {
        let d = dir.drop_last();
        assert(dir == d + seq!['/']);
        assert(j == d + seq!['/'] + name);
        lemma_split_char_last(d, name, '/');
        assert(split_char(d, '/').push(name).last() == name);
    } else {
        assert(j == dir + seq!['/'] + name);
    }
}

/// The stem and the extension of a file name are what stands before and behind its last dot,
/// where something stands before it; else the whole name is its stem.
pub proof fn law_stem_and_extension(stem: Seq<char>, ext: Seq<char>)
    requires
        !ext.contains('.'),
    ensures
        stem.len() > 0 ==> stem_of(stem + seq!['.'] + ext) == stem && extension_of(stem + seq!['.'] + ext) == Some(ext),
        stem_of(ext) == ext,
        extension_of(ext) is None,
        stem_of(seq!['.'] + ext) == seq!['.'] + ext,
        extension_of(seq!['.'] + ext) is None,
{
    lemma_last_dot(stem, ext);
    lemma_last_dot(Seq::empty(), ext);
    lemma_no_dot(ext);
    let s = stem + seq!['.'] + ext;
    assert(s.take(stem.len() as int) == stem);
    assert(s.skip(stem.len() as int + 1) == ext);
    assert(Seq::<char>::empty() + seq!['.'] + ext == seq!['.'] + ext);
}

proof fn lemma_no_dot(s: Seq<char>)
    requires
        !s.contains('.'),
    ensures
        last_pos(s, '.') == -1,
    decreases s.len(),
{
    if s.len() > 0 {
        assert(s[s.len() - 1] != '.');
        let t = s.drop_last();
        assert(!t.contains('.')) by {
            if t.contains('.') {
                let i = choose|i: int| 0 <= i < t.len() && t[i] == '.';
                assert(s[i] == '.');
            }
        }
        lemma_no_dot(t);
    }
}

proof fn lemma_last_dot(a: Seq<char>, b: Seq<char>)
    requires
        !b.contains('.'),
    ensures
        last_pos(a + seq!['.'] + b, '.') == a.len(),
    decreases b.len(),
{
    let s = a + seq!['.'] + b;
    if b.len() > 0 {
        let t = b.drop_last();
        assert(s.last() == b[b.len() - 1]);
        assert(b[b.len() - 1] != '.');
        assert(!t.contains('.')) by {
            if t.contains('.') {
                let i = choose|i: int| 0 <= i < t.len() && t[i] == '.';
                assert(b[i] == '.');
            }
        }
        lemma_last_dot(a, t);
        assert(s.drop_last() == a + seq!['.'] + t);
    } else {
        assert(s.last() == '.');
    }
}

/// Of two texts the one comes first whose UTF-8 bytes are smaller where they first differ, or
/// that is the beginning of the other.
pub proof fn law_order_of_texts(a: Seq<char>, b: Seq<char>)
    ensures
        text_before(a, b) == exists|k: int|
            {
                &&& 0 <= k <= encode_utf8(a).len()
                &&& k < encode_utf8(b).len()
                &&& #[trigger] encode_utf8(a).take(k) == encode_utf8(b).take(k)
                &&& (k == encode_utf8(a).len() || encode_utf8(a)[k] < encode_utf8(b)[k])
            },
{
    lemma_order_of_bytes(encode_utf8(a), encode_utf8(b));
}

proof fn lemma_order_of_bytes(x: Seq<u8>, y: Seq<u8>)
    ensures
        bytes_before(x, y) == exists|k: int|
            {
                &&& 0 <= k <= x.len()
                &&& k < y.len()
                &&& #[trigger] x.take(k) == y.take(k)
                &&& (k == x.len() || x[k] < y[k])
            },
    decreases x.len(),
{
    if y.len() > 0 {
        if x.len() == 0 {
            assert(x.take(0) == y.take(0));
        } else if x[0] == y[0] {
            let u = x.skip(1);
            let v = y.skip(1);
            lemma_order_of_bytes(u, v);
            if bytes_before(u, v) {
                let k = choose|k: int|
                    0 <= k <= u.len() && k < v.len() && #[trigger] u.take(k) == v.take(k) && (k == u.len() || u[k]
                        < v[k]);
                assert(x.take(k + 1) == seq![x[0]] + u.take(k));
                assert(y.take(k + 1) == seq![y[0]] + v.take(k));
                assert(x.take(k + 1) == y.take(k + 1));
                if k < u.len() {
                    assert(u[k] == x[k + 1] && v[k] == y[k + 1]);
                }
            }
            if exists|k: int|
                0 <= k <= x.len() && k < y.len() && #[trigger] x.take(k) == y.take(k) && (k == x.len() || x[k]
                    < y[k]) {
                let k = choose|k: int|
                    0 <= k <= x.len() && k < y.len() && #[trigger] x.take(k) == y.take(k) && (k == x.len() || x[k]
                        < y[k]);
                assert(k > 0);
                assert(u.take(k - 1) == x.take(k).skip(1));
                assert(v.take(k - 1) == y.take(k).skip(1));
                assert(u.take(k - 1) == v.take(k - 1));
                if k < x.len() {
                    assert(u[k - 1] == x[k] && v[k - 1] == y[k]);
                }
            }
        } else {
            assert(x.take(0) == y.take(0));
            if exists|k: int|
                0 <= k <= x.len() && k < y.len() && #[trigger] x.take(k) == y.take(k) && (k == x.len() || x[k]
                    < y[k]) {
                let k = choose|k: int|
                    0 <= k <= x.len() && k < y.len() && #[trigger] x.take(k) == y.take(k) && (k == x.len() || x[k]
                        < y[k]);
                if k > 0 {
                    assert(x.take(k)[0] == x[0] && y.take(k)[0] == y[0]);
                }
            }
        }
    }
}

/// A path is seen from a directory by putting a `/` between them, where there is none; an
/// absolute path stays what it is.
pub proof fn law_joined(base: Seq<char>, tail: Seq<char>)
    ensures
        tail.len() > 0 && tail[0] == '/' ==> joined(base, tail) == tail,
        (tail.len() == 0 || tail[0] != '/') && base.len() > 0 && base[base.len() - 1] != '/' ==> joined(base, tail)
            == base + seq!['/'] + tail,
        (tail.len() == 0 || tail[0] != '/') && base.len() > 0 && base[base.len() - 1] == '/' ==> joined(base, tail)
            == base + tail,
        (tail.len() == 0 || tail[0] != '/') && base.len() == 0 ==> joined(base, tail) == tail,
{
    reveal_strlit("/");
    assert("/"@ == seq!['/']);
    if base.len() == 0 {
        assert(base + tail == tail);
    }
}

/// A list of texts has them all, in their order.
pub proof fn law_texts(v: Seq<String>)
    ensures
        texts(v).len() == v.len(),
        forall|i: int| 0 <= i < v.len() ==> #[trigger] texts(v)[i] == v[i]@,
{
}

} // verus!
