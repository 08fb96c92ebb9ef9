//! Plain text: white space, lines, words, searching and replacing.
//!
//! Contracts speak of the characters of a text, `Seq<char>`.
use vstd::prelude::*;
use vstd::utf8::encode_utf8;

verus! {

/// `String::push` appends one character at the end.
pub assume_specification[ String::push ](s: &mut String, c: char)
    ensures
        final(s)@ == old(s)@.push(c),
;

/// The characters of each string of a list.
pub open spec fn texts(v: Seq<String>) -> Seq<Seq<char>> {
    v.map_values(|s: String| s@)
}

/// The characters that an optional string holds.
pub open spec fn opt_text(s: Option<String>) -> Option<Seq<char>> {
    match s {
        Some(t) => Some(t@),
        None => None,
    }
}

/// The characters that an optional borrowed text holds.
pub open spec fn opt_str(s: Option<&str>) -> Option<Seq<char>> {
    match s {
        Some(t) => Some(t@),
        None => None,
    }
}

/// The characters of `s`, in order.
pub fn chars_of(s: &str) -> (v: Vec<char>)
    ensures
        v@ == s@,
{
    let mut v: Vec<char> = Vec::new();
    for c in it: s.chars()
        invariant
            v@ == it.seq().take(it.index()),
    {
        v.push(c);
    }
    v
}

/// The string made of `chars[from..to]`.
pub fn string_of(chars: &[char], from: usize, to: usize) -> (s: String)
    requires
        from <= to <= chars@.len(),
    ensures
        s@ == chars@.subrange(from as int, to as int),
{
    let mut s: String = String::new();
    let mut i: usize = from;
    while i < to
        invariant
            from <= i <= to <= chars@.len(),
            s@ == chars@.subrange(from as int, i as int),
        decreases to - i,
    {
        s.push(chars[i]);
        i = i + 1;
    }
    s
}

/// Two texts with the same UTF-8 bytes are the same text.
pub proof fn lemma_bytes_injective(a: Seq<char>, b: Seq<char>)
    requires
        encode_utf8(a) == encode_utf8(b),
    ensures
        a == b,
{
    vstd::utf8::encode_utf8_decode_utf8(a);
    vstd::utf8::encode_utf8_decode_utf8(b);
}

/// Whether two texts are equal.
pub fn same(a: &str, b: &str) -> (r: bool)
    ensures
        r == (a@ == b@),
{
    let x: &[u8] = a.as_bytes();
    let y: &[u8] = b.as_bytes();
    if x.len() != y.len() {
        return false;
    }
    let mut i: usize = 0;
    while i < x.len()
        invariant
            x@ == encode_utf8(a@),
            y@ == encode_utf8(b@),
            x@.len() == y@.len(),
            i <= x@.len(),
            x@.take(i as int) == y@.take(i as int),
        decreases x@.len() - i,
    {
        if x[i] != y[i] {
            return false;
        }
        assert(x@.take(i + 1) == x@.take(i as int).push(x@[i as int]));
        assert(y@.take(i + 1) == y@.take(i as int).push(y@[i as int]));
        i = i + 1;
    }
    proof {
        assert(x@.take(i as int) == x@);
        assert(y@.take(i as int) == y@);
        lemma_bytes_injective(a@, b@);
    }
    true
}

// ---------------------------------------------------------------------------
// Positions of a character

/// The position of the first `c` in `s`, or the length of `s` where there is none.
pub open spec fn char_pos(s: Seq<char>, c: char) -> int
    decreases s.len(),
{
    if s.len() == 0 || s[0] == c {
        0
    } else {
        1 + char_pos(s.skip(1), c)
    }
}

/// What `char_pos` returns.
pub proof fn lemma_char_pos(s: Seq<char>, c: char)
    ensures
        0 <= char_pos(s, c) <= s.len(),
        forall|j: int| 0 <= j < char_pos(s, c) ==> s[j] != c,
        char_pos(s, c) < s.len() ==> s[char_pos(s, c)] == c,
    decreases s.len(),
{
    if s.len() == 0 || s[0] == c {
    } else {
        let t = s.skip(1);
        lemma_char_pos(t, c);
        assert forall|j: int| 0 <= j < char_pos(s, c) implies s[j] != c by {
            if j > 0 {
                assert(s[j] == t[j - 1]);
            }
        }
    }
}

/// The first position is the only one with nothing before it.
pub proof fn lemma_char_pos_is(s: Seq<char>, c: char, k: int)
    requires
        0 <= k <= s.len(),
        forall|j: int| 0 <= j < k ==> s[j] != c,
        k < s.len() ==> s[k] == c,
    ensures
        char_pos(s, c) == k,
{
    lemma_char_pos(s, c);
}

/// `s` split around the first `c`.
pub open spec fn split_once(s: Seq<char>, c: char) -> Option<(Seq<char>, Seq<char>)> {
    let p = char_pos(s, c);
    if p < s.len() {
        Some((s.take(p), s.skip(p + 1)))
    } else {
        None
    }
}

/// The text before and the text after the first `c`, where there is one.
pub fn split_once_at<'a>(s: &'a str, c: char) -> (r: Option<(&'a str, &'a str)>)
    ensures
        match r {
            Some((a, b)) => split_once(s@, c) == Some((a@, b@)),
            None => split_once(s@, c) is None,
        },
{
    let v: Vec<char> = chars_of(s);
    let mut i: usize = 0;
    while i < v.len() && v[i] != c
        invariant
            i <= v@.len(),
            v@ == s@,
            forall|j: int| 0 <= j < i ==> v@[j] != c,
        decreases v@.len() - i,
    {
        i = i + 1;
    }
    proof {
        lemma_char_pos_is(s@, c, i as int);
    }
    if i < v.len() {
        let n: usize = v.len();
        Some((s.substring_char(0, i), s.substring_char(i + 1, n)))
    } else {
        None
    }
}

/// `s` cut at every `c`; a text without `c` is one piece.
pub open spec fn split_char(s: Seq<char>, c: char) -> Seq<Seq<char>>
    decreases s.len(),
    via split_char_decreases
{
    let p = char_pos(s, c);
    if p < s.len() {
        seq![s.take(p)] + split_char(s.skip(p + 1), c)
    } else {
        seq![s]
    }
}

#[via_fn]
proof fn split_char_decreases(s: Seq<char>, c: char) {
    lemma_char_pos(s, c);
}

// ---------------------------------------------------------------------------
// White space

/// Whether `c` has the Unicode property `White_Space`.
pub open spec fn is_space(c: char) -> bool {
    ||| '\u{9}' <= c <= '\u{d}'
    ||| c == ' '
    ||| c == '\u{85}'
    ||| c == '\u{a0}'
    ||| c == '\u{1680}'
    ||| '\u{2000}' <= c <= '\u{200a}'
    ||| c == '\u{2028}'
    ||| c == '\u{2029}'
    ||| c == '\u{202f}'
    ||| c == '\u{205f}'
    ||| c == '\u{3000}'
}

/// Whether `c` is white space.
pub fn whitespace(c: char) -> (r: bool)
    ensures
        r == is_space(c),
{
    ('\u{9}' <= c && c <= '\u{d}') || c == ' ' || c == '\u{85}' || c == '\u{a0}' || c == '\u{1680}'
        || ('\u{2000}' <= c && c <= '\u{200a}') || c == '\u{2028}' || c == '\u{2029}'
        || c == '\u{202f}' || c == '\u{205f}' || c == '\u{3000}'
}

/// `s` without the white space that it starts with.
pub open spec fn trim_start(s: Seq<char>) -> Seq<char>
    decreases s.len(),
{
    if s.len() > 0 && is_space(s[0]) {
        trim_start(s.skip(1))
    } else {
        s
    }
}

/// `s` without the white space that it ends with.
pub open spec fn trim_end(s: Seq<char>) -> Seq<char>
    decreases s.len(),
{
    if s.len() > 0 && is_space(s.last()) {
        trim_end(s.drop_last())
    } else {
        s
    }
}

/// `s` without white space at either end.
pub open spec fn trim(s: Seq<char>) -> Seq<char> {
    trim_end(trim_start(s))
}

/// Where only white space stands before `k`, trimming may begin at `k`.
pub proof fn lemma_trim_start_skip(s: Seq<char>, k: int)
    requires
        0 <= k <= s.len(),
        forall|j: int| 0 <= j < k ==> is_space(s[j]),
    ensures
        trim_start(s) == trim_start(s.skip(k)),
    decreases k,
{
    if k > 0 {
        assert(is_space(s[0]));
        let t = s.skip(1);
        assert forall|j: int| 0 <= j < k - 1 implies is_space(t[j]) by {
            assert(t[j] == s[j + 1]);
        }
        lemma_trim_start_skip(t, k - 1);
        assert(t.skip(k - 1) == s.skip(k));
    } else {
        assert(s.skip(0) == s);
    }
}

/// Where only white space stands from `k` on, trimming may begin at `k`.
pub proof fn lemma_trim_end_take(s: Seq<char>, k: int)
    requires
        0 <= k <= s.len(),
        forall|j: int| k <= j < s.len() ==> is_space(s[j]),
    ensures
        trim_end(s) == trim_end(s.take(k)),
    decreases s.len() - k,
{
    if k < s.len() {
        assert(is_space(s.last()));
        let t = s.drop_last();
        lemma_trim_end_take(t, k);
        assert(t.take(k) == s.take(k));
    } else {
        assert(s.take(k) == s);
    }
}

/// A text with no white space at either end is what trimming leaves.
pub proof fn lemma_trim_of_trimmed(s: Seq<char>)
    requires
        s.len() == 0 || (!is_space(s[0]) && !is_space(s.last())),
    ensures
        trim(s) == s,
        trim_start(s) == s,
        trim_end(s) == s,
{
}

/// The part of `s` without white space at either end.
pub fn trimmed<'a>(s: &'a str) -> (r: &'a str)
    ensures
        r@ == trim(s@),
{
    let v: Vec<char> = chars_of(s);
    let mut i: usize = 0;
    while i < v.len() && whitespace(v[i])
        invariant
            i <= v@.len(),
            v@ == s@,
            forall|j: int| 0 <= j < i ==> is_space(v@[j]),
        decreases v@.len() - i,
    {
        i = i + 1;
    }
    let mut k: usize = v.len();
    while i < k && whitespace(v[k - 1])
        invariant
            i <= k <= v@.len(),
            v@ == s@,
            forall|j: int| k <= j < v@.len() ==> is_space(v@[j]),
        decreases k,
    {
        k = k - 1;
    }
    proof {
        lemma_trim_start_skip(s@, i as int);
        let t = s@.skip(i as int);
        assert(trim_start(t) == t);
        assert forall|j: int| k - i <= j < t.len() implies is_space(t[j]) by {
            assert(t[j] == s@[j + i]);
        }
        lemma_trim_end_take(t, k - i);
        let u = t.take(k - i);
        assert(u == s@.subrange(i as int, k as int));
        assert(trim_end(u) == u);
    }
    s.substring_char(i, k)
}

/// The part of `s` without white space at its start.
pub fn start_trimmed<'a>(s: &'a str) -> (r: &'a str)
    ensures
        r@ == trim_start(s@),
{
    let v: Vec<char> = chars_of(s);
    let mut i: usize = 0;
    while i < v.len() && whitespace(v[i])
        invariant
            i <= v@.len(),
            v@ == s@,
            forall|j: int| 0 <= j < i ==> is_space(v@[j]),
        decreases v@.len() - i,
    {
        i = i + 1;
    }
    let n: usize = v.len();
    proof {
        lemma_trim_start_skip(s@, i as int);
        assert(trim_start(s@.skip(i as int)) == s@.skip(i as int));
    }
    s.substring_char(i, n)
}

// ---------------------------------------------------------------------------
// Words

/// How many characters `s` starts with that are not white space.
pub open spec fn word_len(s: Seq<char>) -> int
    decreases s.len(),
{
    if s.len() == 0 || is_space(s[0]) {
        0
    } else {
        1 + word_len(s.skip(1))
    }
}

/// The words of `s`: its longest parts without white space.
pub open spec fn words(s: Seq<char>) -> Seq<Seq<char>>
    decreases s.len(),
    via words_decreases
{
    let t = trim_start(s);
    if t.len() == 0 {
        Seq::empty()
    } else {
        seq![t.take(word_len(t))] + words(t.skip(word_len(t)))
    }
}

#[via_fn]
proof fn words_decreases(s: Seq<char>) {
    lemma_trim_start(s);
    lemma_word_len(trim_start(s));
}

/// What trimming at the start leaves.
pub proof fn lemma_trim_start(s: Seq<char>)
    ensures
        trim_start(s).len() <= s.len(),
        trim_start(s) == s.skip(s.len() - trim_start(s).len()),
        trim_start(s).len() > 0 ==> !is_space(trim_start(s)[0]),
        forall|j: int| 0 <= j < s.len() - trim_start(s).len() ==> is_space(s[j]),
    decreases s.len(),
{
    if s.len() > 0 && is_space(s[0]) {
        let t = s.skip(1);
        lemma_trim_start(t);
        let k = t.len() - trim_start(t).len();
        assert(s.skip(1 + k) == t.skip(k));
        assert forall|j: int| 0 <= j < s.len() - trim_start(s).len() implies is_space(s[j]) by {
            if j > 0 {
                assert(s[j] == t[j - 1]);
            }
        }
    } else {
        assert(s.skip(0) == s);
    }
}

/// What `word_len` returns.
pub proof fn lemma_word_len(s: Seq<char>)
    ensures
        0 <= word_len(s) <= s.len(),
        forall|j: int| 0 <= j < word_len(s) ==> !is_space(s[j]),
        word_len(s) < s.len() ==> is_space(s[word_len(s)]),
    decreases s.len(),
{
    if s.len() == 0 || is_space(s[0]) {
    } else {
        let t = s.skip(1);
        lemma_word_len(t);
        assert forall|j: int| 0 <= j < word_len(s) implies !is_space(s[j]) by {
            if j > 0 {
                assert(s[j] == t[j - 1]);
            }
        }
    }
}

/// The word length is fixed by where white space first stands.
pub proof fn lemma_word_len_is(s: Seq<char>, k: int)
    requires
        0 <= k <= s.len(),
        forall|j: int| 0 <= j < k ==> !is_space(s[j]),
        k < s.len() ==> is_space(s[k]),
    ensures
        word_len(s) == k,
{
    lemma_word_len(s);
}

/// White space at the start holds no word.
pub proof fn lemma_words_skip(s: Seq<char>, k: int)
    requires
        0 <= k <= s.len(),
        forall|j: int| 0 <= j < k ==> is_space(s[j]),
    ensures
        words(s) == words(s.skip(k)),
{
    lemma_trim_start_skip(s, k);
}

/// The first word, then the others.
pub proof fn lemma_words_first(s: Seq<char>, k: int)
    requires
        0 < k <= s.len(),
        forall|j: int| 0 <= j < k ==> !is_space(s[j]),
        k < s.len() ==> is_space(s[k]),
    ensures
        words(s) == seq![s.take(k)] + words(s.skip(k)),
{
    assert(!is_space(s[0]));
    assert(trim_start(s) == s);
    lemma_word_len_is(s, k);
}

/// A text that `words` can return: not empty, and without white space.
pub open spec fn is_word(w: Seq<char>) -> bool {
    &&& w.len() > 0
    &&& forall|j: int| 0 <= j < w.len() ==> !is_space(#[trigger] w[j])
}

/// Every word is one.
pub proof fn lemma_words_are_words(s: Seq<char>)
    ensures
        forall|i: int| 0 <= i < words(s).len() ==> is_word(#[trigger] words(s)[i]),
    decreases s.len(),
{
    let t = trim_start(s);
    lemma_trim_start(s);
    lemma_word_len(t);
    if t.len() > 0 {
        let rest = t.skip(word_len(t));
        lemma_words_are_words(rest);
        let first = t.take(word_len(t));
        assert(is_word(first));
        assert forall|i: int| 0 <= i < words(s).len() implies is_word(#[trigger] words(s)[i]) by {
            if i > 0 {
                assert(words(s)[i] == words(rest)[i - 1]);
            }
        }
    }
}

/// A space and a word at the end add that word.
pub proof fn lemma_words_push(s: Seq<char>, w: Seq<char>)
    requires
        is_word(w),
    ensures
        words(s + seq![' '] + w) == words(s).push(w),
    decreases s.len(),
{
    let u = s + seq![' '] + w;
    let t = trim_start(s);
    let n = s.len() - t.len();
    lemma_trim_start(s);
    assert forall|j: int| 0 <= j < n implies is_space(u[j]) by {
        assert(u[j] == s[j]);
    }
    lemma_words_skip(u, n);
    let v = u.skip(n);
    assert(v == t + seq![' '] + w);
    if t.len() == 0 {
        assert(v[0] == ' ');
        lemma_words_skip(v, 1);
        assert(v.skip(1) == w);
        lemma_words_first(w, w.len() as int);
        assert(w.take(w.len() as int) == w);
        assert(w.skip(w.len() as int) == Seq::<char>::empty());
        assert(words(Seq::<char>::empty()) == Seq::<Seq<char>>::empty());
        assert(words(s) == Seq::<Seq<char>>::empty());
        assert(words(u) == words(s).push(w));
    } else {
        let k = word_len(t);
        lemma_word_len(t);
        assert forall|j: int| 0 <= j < k implies !is_space(v[j]) by {
            assert(v[j] == t[j]);
        }
        if k < t.len() {
            assert(v[k] == t[k]);
        } else {
            assert(v[k] == ' ');
        }
        lemma_words_first(v, k);
        assert(v.take(k) == t.take(k));
        let r = t.skip(k);
        assert(v.skip(k) == r + seq![' '] + w);
        lemma_words_push(r, w);
        assert(words(u) == seq![t.take(k)] + words(r).push(w));
        assert(words(s) == seq![t.take(k)] + words(r));
        assert(words(u) == words(s).push(w));
    }
}

/// A single word is its own list of words.
pub proof fn lemma_words_of_word(w: Seq<char>)
    requires
        is_word(w),
    ensures
        words(w) == seq![w],
{
    lemma_words_first(w, w.len() as int);
    assert(w.take(w.len() as int) == w);
    assert(w.skip(w.len() as int) == Seq::<char>::empty());
    assert(words(Seq::<char>::empty()) == Seq::<Seq<char>>::empty());
    assert(words(w) == seq![w]);
}

/// The words of `s`, in order.
pub fn split_words(s: &str) -> (r: Vec<String>)
    ensures
        texts(r@) == words(s@),
{
    let v: Vec<char> = chars_of(s);
    let mut out: Vec<String> = Vec::new();
    let mut i: usize = 0;
    proof {
        assert(s@.skip(0) == s@);
        assert(texts(out@) + words(s@) == words(s@));
    }
    while i < v.len()
        invariant
            i <= v@.len(),
            v@ == s@,
            texts(out@) + words(s@.skip(i as int)) == words(s@),
        decreases v@.len() - i,
    {
        let ghost rest = s@.skip(i as int);
        if whitespace(v[i]) {
            proof {
                assert(rest[0] == v@[i as int]);
                lemma_words_skip(rest, 1);
                assert(rest.skip(1) == s@.skip(i + 1));
            }
            i = i + 1;
        } else {
            let start: usize = i;
            i = i + 1;
            while i < v.len() && !whitespace(v[i])
                invariant
                    start < i <= v@.len(),
                    forall|j: int| start <= j < i ==> !is_space(v@[j]),
                decreases v@.len() - i,
            {
                i = i + 1;
            }
            let ghost before = out@;
            out.push(string_of(v.as_slice(), start, i));
            proof {
                let k = i - start;
                assert forall|j: int| 0 <= j < k implies !is_space(rest[j]) by {
                    assert(rest[j] == v@[j + start]);
                }
                if k < rest.len() {
                    assert(rest[k] == v@[i as int]);
                }
                lemma_words_first(rest, k);
                assert(rest.take(k) == s@.subrange(start as int, i as int));
                assert(rest.skip(k) == s@.skip(i as int));
                assert(texts(out@) == texts(before).push(rest.take(k)));
                assert(texts(out@) + words(s@.skip(i as int)) == texts(before) + (seq![rest.take(
                    k,
                )] + words(s@.skip(i as int))));
            }
        }
    }
    proof {
        assert(s@.skip(i as int) == Seq::<char>::empty());
        assert(words(Seq::<char>::empty()) == Seq::<Seq<char>>::empty());
        assert(texts(out@) == texts(out@) + Seq::<Seq<char>>::empty());
    }
    out
}

// ---------------------------------------------------------------------------
// Lines

/// `line` without a carriage return at its end.
pub open spec fn strip_cr(line: Seq<char>) -> Seq<char> {
    if line.len() > 0 && line.last() == '\r' {
        line.drop_last()
    } else {
        line
    }
}

/// The lines of `s`. A line ends with `\n` or `\r\n`, which is not part of it;
/// the last one may lack the ending, and then keeps a `\r`.
pub open spec fn lines(s: Seq<char>) -> Seq<Seq<char>>
    decreases s.len(),
    via lines_decreases
{
    let p = char_pos(s, '\n');
    if s.len() == 0 {
        Seq::empty()
    } else if p < s.len() {
        seq![strip_cr(s.take(p))] + lines(s.skip(p + 1))
    } else {
        seq![s]
    }
}

#[via_fn]
proof fn lines_decreases(s: Seq<char>) {
    lemma_char_pos(s, '\n');
}

/// The first line, then the others.
pub proof fn lemma_lines_first(a: Seq<char>, b: Seq<char>)
    requires
        forall|j: int| 0 <= j < a.len() ==> a[j] != '\n',
    ensures
        lines(a + seq!['\n'] + b) == seq![strip_cr(a)] + lines(b),
{
    let s = a + seq!['\n'] + b;
    assert forall|j: int| 0 <= j < a.len() implies s[j] != '\n' by {
        assert(s[j] == a[j]);
    }
    assert(s[a.len() as int] == '\n');
    lemma_char_pos_is(s, '\n', a.len() as int);
    assert(s.take(a.len() as int) == a);
    assert(s.skip(a.len() as int + 1) == b);
}

/// Text that ends with a line end has the lines of its two parts.
pub proof fn lemma_lines_concat(a: Seq<char>, b: Seq<char>)
    requires
        a.len() == 0 || a.last() == '\n',
    ensures
        lines(a + b) == lines(a) + lines(b),
    decreases a.len(),
{
    if a.len() == 0 {
        assert(a + b == b);
        assert(lines(a) == Seq::<Seq<char>>::empty());
        assert(lines(a) + lines(b) == lines(b));
    } else {
        let p = char_pos(a, '\n');
        lemma_char_pos(a, '\n');
        if p == a.len() {
            assert(a[a.len() - 1] == '\n');
        }
        let head = a.take(p);
        let rest = a.skip(p + 1);
        assert(a == head + seq!['\n'] + rest);
        assert(a + b == head + seq!['\n'] + (rest + b));
        if rest.len() > 0 {
            assert(rest.last() == a.last());
        }
        lemma_lines_concat(rest, b);
        lemma_lines_first(head, rest);
        lemma_lines_first(head, rest + b);
        assert(lines(a + b) == lines(a) + lines(b));
    }
}

/// Text that lies within one line.
pub open spec fn unbroken(s: Seq<char>) -> bool {
    forall|j: int| 0 <= j < s.len() ==> #[trigger] s[j] != '\n' && s[j] != '\r'
}

/// A word lies within one line.
pub proof fn lemma_unbroken_word(w: Seq<char>)
    requires
        is_word(w),
    ensures
        unbroken(w),
{
    assert forall|j: int| 0 <= j < w.len() implies #[trigger] w[j] != '\n' && w[j] != '\r' by {
        assert(!is_space(w[j]));
    }
}

/// So do two texts that lie within one line, one after the other.
pub proof fn lemma_unbroken_concat(a: Seq<char>, b: Seq<char>)
    requires
        unbroken(a),
        unbroken(b),
    ensures
        unbroken(a + b),
{
    assert forall|j: int| 0 <= j < (a + b).len() implies #[trigger] (a + b)[j] != '\n' && (a + b)[j]
        != '\r' by {
        if j < a.len() {
            assert((a + b)[j] == a[j]);
        } else {
            assert((a + b)[j] == b[j - a.len()]);
        }
    }
}

/// An unbroken text and a line end are one line.
pub proof fn lemma_one_line(s: Seq<char>)
    requires
        unbroken(s),
    ensures
        lines(s + seq!['\n']) == seq![s],
{
    assert(s + seq!['\n'] == s + seq!['\n'] + Seq::<char>::empty());
    lemma_lines_first(s, Seq::empty());
    assert(lines(Seq::<char>::empty()) == Seq::<Seq<char>>::empty());
    assert(strip_cr(s) == s);
    assert(seq![s] + Seq::<Seq<char>>::empty() == seq![s]);
}

/// The lines of `s`, in order.
pub fn split_lines(s: &str) -> (r: Vec<String>)
    ensures
        texts(r@) == lines(s@),
{
    let v: Vec<char> = chars_of(s);
    let mut out: Vec<String> = Vec::new();
    let mut start: usize = 0;
    let mut i: usize = 0;
    proof {
        assert(s@.skip(0) == s@);
        assert(texts(out@) + lines(s@) == lines(s@));
    }
    while i < v.len()
        invariant
            start <= i <= v@.len(),
            v@ == s@,
            forall|j: int| start <= j < i ==> v@[j] != '\n',
            texts(out@) + lines(s@.skip(start as int)) == lines(s@),
        decreases v@.len() - i,
    {
        if v[i] == '\n' {
            let end: usize = if start < i && v[i - 1] == '\r' {
                i - 1
            } else {
                i
            };
            let ghost before = out@;
            out.push(string_of(v.as_slice(), start, end));
            proof {
                let rest = s@.skip(start as int);
                let a = s@.subrange(start as int, i as int);
                let b = s@.skip(i + 1);
                assert(rest == a + seq!['\n'] + b);
                lemma_lines_first(a, b);
                assert(strip_cr(a) == s@.subrange(start as int, end as int));
                assert(texts(out@) == texts(before).push(strip_cr(a)));
                assert(texts(out@) + lines(b) == texts(before) + (seq![strip_cr(a)] + lines(b)));
            }
            start = i + 1;
        }
        i = i + 1;
    }
    let ghost rest = s@.skip(start as int);
    if start < v.len() {
        let ghost before = out@;
        let n: usize = v.len();
        out.push(string_of(v.as_slice(), start, n));
        proof {
            assert forall|j: int| 0 <= j < rest.len() implies rest[j] != '\n' by {
                assert(rest[j] == v@[j + start]);
            }
            lemma_char_pos_is(rest, '\n', rest.len() as int);
            assert(lines(rest) == seq![rest]);
            assert(rest == s@.subrange(start as int, n as int));
            assert(texts(out@) == texts(before).push(rest));
            assert(texts(out@) == texts(before) + seq![rest]);
        }
    } else {
        proof {
            assert(rest == Seq::<char>::empty());
            assert(lines(rest) == Seq::<Seq<char>>::empty());
            assert(texts(out@) == texts(out@) + lines(rest));
        }
    }
    out
}

// ---------------------------------------------------------------------------
// Pieces between a character

/// `s` cut at every `c`.
pub fn split_at_char(s: &str, c: char) -> (r: Vec<String>)
    ensures
        texts(r@) == split_char(s@, c),
{
    let v: Vec<char> = chars_of(s);
    let mut out: Vec<String> = Vec::new();
    let mut start: usize = 0;
    let mut i: usize = 0;
    proof {
        assert(s@.skip(0) == s@);
        assert(texts(out@) + split_char(s@, c) == split_char(s@, c));
    }
    while i < v.len()
        invariant
            start <= i <= v@.len(),
            v@ == s@,
            forall|j: int| start <= j < i ==> v@[j] != c,
            texts(out@) + split_char(s@.skip(start as int), c) == split_char(s@, c),
        decreases v@.len() - i,
    {
        if v[i] == c {
            let ghost before = out@;
            out.push(string_of(v.as_slice(), start, i));
            proof {
                let rest = s@.skip(start as int);
                let k = i - start;
                assert forall|j: int| 0 <= j < k implies rest[j] != c by {
                    assert(rest[j] == v@[j + start]);
                }
                assert(rest[k] == v@[i as int]);
                lemma_char_pos_is(rest, c, k);
                assert(rest.take(k) == s@.subrange(start as int, i as int));
                assert(rest.skip(k + 1) == s@.skip(i + 1));
                assert(texts(out@) == texts(before).push(rest.take(k)));
                assert(texts(out@) + split_char(s@.skip(i + 1), c) == texts(before) + (seq![
                    rest.take(k),
                ] + split_char(s@.skip(i + 1), c)));
            }
            start = i + 1;
        }
        i = i + 1;
    }
    let n: usize = v.len();
    let ghost before = out@;
    out.push(string_of(v.as_slice(), start, n));
    proof {
        let rest = s@.skip(start as int);
        assert forall|j: int| 0 <= j < rest.len() implies rest[j] != c by {
            assert(rest[j] == v@[j + start]);
        }
        lemma_char_pos_is(rest, c, rest.len() as int);
        assert(rest == s@.subrange(start as int, n as int));
        assert(texts(out@) == texts(before) + seq![rest]);
    }
    out
}

/// The pieces around one `c`, where the first piece holds none.
pub proof fn lemma_split_char_first(a: Seq<char>, b: Seq<char>, c: char)
    requires
        forall|j: int| 0 <= j < a.len() ==> a[j] != c,
    ensures
        split_char(a + seq![c] + b, c) == seq![a] + split_char(b, c),
        split_once(a + seq![c] + b, c) == Some((a, b)),
{
    let s = a + seq![c] + b;
    assert forall|j: int| 0 <= j < a.len() implies s[j] != c by {
        assert(s[j] == a[j]);
    }
    assert(s[a.len() as int] == c);
    lemma_char_pos_is(s, c, a.len() as int);
    assert(s.take(a.len() as int) == a);
    assert(s.skip(a.len() as int + 1) == b);
}

/// A text without `c` is one piece.
pub proof fn lemma_split_char_none(a: Seq<char>, c: char)
    requires
        forall|j: int| 0 <= j < a.len() ==> a[j] != c,
    ensures
        split_char(a, c) == seq![a],
        split_once(a, c) is None,
{
    lemma_char_pos_is(a, c, a.len() as int);
}

/// The pieces around the last `c`, where the last piece holds none.
pub proof fn lemma_split_char_last(a: Seq<char>, b: Seq<char>, c: char)
    requires
        forall|j: int| 0 <= j < b.len() ==> b[j] != c,
    ensures
        split_char(a + seq![c] + b, c) == split_char(a, c).push(b),
    decreases a.len(),
{
    let p = char_pos(a, c);
    lemma_char_pos(a, c);
    if p == a.len() {
        assert forall|j: int| 0 <= j < a.len() implies a[j] != c by {}
        lemma_split_char_first(a, b, c);
        lemma_split_char_none(a, c);
        lemma_split_char_none(b, c);
        assert(seq![a] + seq![b] == seq![a].push(b));
    } else {
        let head = a.take(p);
        let rest = a.skip(p + 1);
        assert(a == head + seq![c] + rest);
        assert(a + seq![c] + b == head + seq![c] + (rest + seq![c] + b));
        assert forall|j: int| 0 <= j < head.len() implies head[j] != c by {
            assert(head[j] == a[j]);
        }
        lemma_split_char_first(head, rest, c);
        lemma_split_char_first(head, rest + seq![c] + b, c);
        lemma_split_char_last(rest, b, c);
        assert(seq![head] + split_char(rest, c).push(b) == (seq![head] + split_char(rest, c)).push(b));
    }
}

/// Whether `c` occurs in `s`.
pub fn has_char(s: &str, c: char) -> (r: bool)
    ensures
        r == s@.contains(c),
{
    let v: Vec<char> = chars_of(s);
    let mut i: usize = 0;
    while i < v.len()
        invariant
            i <= v@.len(),
            v@ == s@,
            forall|j: int| 0 <= j < i ==> v@[j] != c,
        decreases v@.len() - i,
    {
        if v[i] == c {
            assert(s@[i as int] == c);
            return true;
        }
        i = i + 1;
    }
    false
}

// ---------------------------------------------------------------------------
// Parts of a text

/// Whether `s` starts with `p`.
pub open spec fn starts_with(s: Seq<char>, p: Seq<char>) -> bool {
    p.len() <= s.len() && s.take(p.len() as int) == p
}

/// Whether `p` stands at position `k` of `s`.
pub open spec fn part_at(s: Seq<char>, p: Seq<char>, k: int) -> bool {
    0 <= k && k + p.len() <= s.len() && s.subrange(k, k + p.len()) == p
}

/// Whether `p` stands somewhere in `s`.
pub open spec fn contains_part(s: Seq<char>, p: Seq<char>) -> bool {
    exists|k: int| part_at(s, p, k)
}

/// The first position at which `p` stands in `s`.
pub open spec fn find(s: Seq<char>, p: Seq<char>) -> Option<int>
    decreases s.len(),
{
    if starts_with(s, p) {
        Some(0)
    } else if s.len() == 0 {
        None
    } else {
        match find(s.skip(1), p) {
            Some(k) => Some(k + 1),
            None => None,
        }
    }
}

/// What `find` returns.
pub proof fn lemma_find(s: Seq<char>, p: Seq<char>)
    ensures
        match find(s, p) {
            Some(k) => part_at(s, p, k) && forall|j: int| 0 <= j < k ==> !part_at(s, p, j),
            None => !contains_part(s, p),
        },
    decreases s.len(),
{
    if starts_with(s, p) {
        assert(s.subrange(0, p.len() as int) == s.take(p.len() as int));
    } else if s.len() == 0 {
        assert forall|k: int| !part_at(s, p, k) by {
            if part_at(s, p, k) {
                assert(s.take(0) == p);
            }
        }
    } else {
        let t = s.skip(1);
        lemma_find(t, p);
        assert forall|k: int| k >= 1 implies part_at(s, p, k) == part_at(t, p, k - 1) by {
            if k + p.len() <= s.len() {
                assert(s.subrange(k, k + p.len()) == t.subrange(k - 1, k - 1 + p.len()));
            }
        }
        assert(!part_at(s, p, 0)) by {
            if part_at(s, p, 0) {
                assert(s.subrange(0, p.len() as int) == s.take(p.len() as int));
            }
        }
    }
}

/// The position that `find` returns is the first one.
pub proof fn lemma_find_is(s: Seq<char>, p: Seq<char>, k: int)
    requires
        part_at(s, p, k),
        forall|j: int| 0 <= j < k ==> !part_at(s, p, j),
    ensures
        find(s, p) == Some(k),
{
    lemma_find(s, p);
    assert(contains_part(s, p));
}

/// Whether `p` stands at position `k` of `s`.
pub fn is_part_at(s: &[char], p: &[char], k: usize) -> (r: bool)
    requires
        k <= s@.len(),
    ensures
        r == part_at(s@, p@, k as int),
{
    let n: usize = s.len();
    if n - k < p.len() {
        return false;
    }
    let mut i: usize = 0;
    while i < p.len()
        invariant
            i <= p@.len(),
            n == s@.len(),
            k + p@.len() <= n,
            forall|j: int| 0 <= j < i ==> s@[k + j] == p@[j],
        decreases p@.len() - i,
    {
        if s[k + i] != p[i] {
            proof {
                assert(s@.subrange(k as int, k + p@.len())[i as int] == s@[k + i]);
            }
            return false;
        }
        i = i + 1;
    }
    assert(s@.subrange(k as int, k + p@.len()) == p@);
    true
}

/// The first position from `from` on at which `p` stands in `s`.
pub fn find_from(s: &[char], p: &[char], from: usize) -> (r: Option<usize>)
    requires
        from <= s@.len(),
    ensures
        match r {
            Some(k) => from <= k && find(s@.skip(from as int), p@) == Some(k - from),
            None => find(s@.skip(from as int), p@) is None,
        },
        r matches Some(k) ==> k + p@.len() <= s@.len(),
{
    let ghost t = s@.skip(from as int);
    let mut k: usize = from;
    proof {
        assert forall|j: int| #![trigger part_at(s@, p@, j)] from <= j implies part_at(s@, p@, j) == part_at(
            t,
            p@,
            j - from,
        ) by {
            if j + p@.len() <= s@.len() {
                assert(s@.subrange(j, j + p@.len()) == t.subrange(j - from, j - from + p@.len()));
            }
        }
    }
    loop
        invariant
            from <= k <= s@.len(),
            t == s@.skip(from as int),
            forall|j: int|
                #![trigger part_at(s@, p@, j)]
                from <= j ==> part_at(s@, p@, j) == part_at(t, p@, j - from),
            forall|j: int| 0 <= j < k - from ==> !part_at(t, p@, j),
        decreases s@.len() - k,
    {
        if is_part_at(s, p, k) {
            proof {
                assert(part_at(s@, p@, k as int));
                lemma_find_is(t, p@, k - from);
            }
            return Some(k);
        }
        proof {
            assert(!part_at(s@, p@, k as int));
            assert(!part_at(t, p@, k - from));
        }
        if k == s.len() {
            proof {
                lemma_find(t, p@);
                if find(t, p@) is Some {
                    assert(part_at(t, p@, find(t, p@)->0));
                }
            }
            return None;
        }
        k = k + 1;
    }
}

/// The last position at which `p` stands in `s`.
pub open spec fn find_last(s: Seq<char>, p: Seq<char>) -> Option<int>
    decreases s.len(),
{
    if p.len() <= s.len() && s.skip(s.len() - p.len()) == p {
        Some(s.len() - p.len())
    } else if s.len() == 0 {
        None
    } else {
        find_last(s.drop_last(), p)
    }
}

/// What `find_last` returns.
pub proof fn lemma_find_last(s: Seq<char>, p: Seq<char>)
    ensures
        match find_last(s, p) {
            Some(k) => part_at(s, p, k) && forall|j: int| k < j ==> !part_at(s, p, j),
            None => !contains_part(s, p),
        },
    decreases s.len(),
{
    let n = s.len() as int;
    let at = n - p.len();
    assert(at >= 0 ==> s.subrange(at, n) == s.skip(at));
    if !(at >= 0 && s.skip(at) == p) {
        if n == 0 {
            assert forall|k: int| !part_at(s, p, k) by {
                if part_at(s, p, k) {
                    assert(k == at);
                }
            }
        } else {
            let t = s.drop_last();
            lemma_find_last(t, p);
            assert forall|k: int|
                #![trigger part_at(s, p, k)]
                #![trigger part_at(t, p, k)]
                part_at(s, p, k) == part_at(t, p, k) by {
                if 0 <= k && k + p.len() < n {
                    assert(s.subrange(k, k + p.len()) == t.subrange(k, k + p.len()));
                }
            }
        }
    }
}

/// The position that `find_last` returns is the last one.
pub proof fn lemma_find_last_is(s: Seq<char>, p: Seq<char>, k: int)
    requires
        part_at(s, p, k),
        forall|j: int| k < j ==> !part_at(s, p, j),
    ensures
        find_last(s, p) == Some(k),
{
    lemma_find_last(s, p);
    assert(contains_part(s, p));
}

/// The last position at which `p` stands in the first `to` characters of `s`.
pub fn find_last_before(s: &[char], p: &[char], to: usize) -> (r: Option<usize>)
    requires
        to <= s@.len(),
    ensures
        match r {
            Some(k) => find_last(s@.take(to as int), p@) == Some(k as int),
            None => find_last(s@.take(to as int), p@) is None,
        },
        r matches Some(k) ==> k + p@.len() <= to,
{
    let ghost t = s@.take(to as int);
    proof {
        lemma_find_last(t, p@);
    }
    if to < p.len() {
        return None;
    }
    let mut k: usize = to - p.len();
    loop
        invariant
            k + p@.len() <= to,
            to <= s@.len(),
            t == s@.take(to as int),
            match find_last(t, p@) {
                Some(m) => part_at(t, p@, m) && forall|j: int| m < j ==> !part_at(t, p@, j),
                None => !contains_part(t, p@),
            },
            forall|j: int| k < j ==> !part_at(t, p@, j),
        decreases k,
    {
        assert(t.subrange(k as int, k + p@.len()) == s@.subrange(k as int, k + p@.len()));
        assert(part_at(t, p@, k as int) == part_at(s@, p@, k as int));
        if is_part_at(s, p, k) {
            proof {
                lemma_find_last_is(t, p@, k as int);
            }
            return Some(k);
        }
        if k == 0 {
            return None;
        }
        k = k - 1;
    }
}

/// Whether `p` stands somewhere in `s`.
pub fn has_part(s: &[char], p: &[char]) -> (r: bool)
    ensures
        r == contains_part(s@, p@),
{
    let r: Option<usize> = find_from(s, p, 0);
    proof {
        assert(s@.skip(0) == s@);
        lemma_find(s@, p@);
    }
    r.is_some()
}

/// What follows `p` in a text that starts with `p`.
pub fn without_prefix<'a>(s: &'a str, p: &str) -> (r: Option<&'a str>)
    ensures
        match r {
            Some(t) => starts_with(s@, p@) && t@ == s@.skip(p@.len() as int),
            None => !starts_with(s@, p@),
        },
{
    let v: Vec<char> = chars_of(s);
    let w: Vec<char> = chars_of(p);
    if is_part_at(v.as_slice(), w.as_slice(), 0) {
        let n: usize = v.len();
        let k: usize = w.len();
        proof {
            assert(s@.subrange(0, p@.len() as int) == s@.take(p@.len() as int));
        }
        Some(s.substring_char(k, n))
    } else {
        proof {
            if starts_with(s@, p@) {
                assert(s@.subrange(0, p@.len() as int) == s@.take(p@.len() as int));
            }
        }
        None
    }
}

// ---------------------------------------------------------------------------
// Letter case

/// `c`, as a small letter where it is one of `A` to `Z`.
pub open spec fn lower_char(c: char) -> char {
    if 'A' <= c <= 'Z' {
        (c as u32 + 32) as char
    } else {
        c
    }
}

/// `s` with `A` to `Z` as small letters.
pub open spec fn lower(s: Seq<char>) -> Seq<char> {
    s.map_values(|c: char| lower_char(c))
}

/// `s` with `A` to `Z` as small letters.
pub fn ascii_lower(s: &str) -> (r: Vec<char>)
    ensures
        r@ == lower(s@),
{
    let mut v: Vec<char> = chars_of(s);
    let mut i: usize = 0;
    while i < v.len()
        invariant
            i <= v@.len(),
            v@.len() == s@.len(),
            forall|j: int| 0 <= j < i ==> v@[j] == lower_char(s@[j]),
            forall|j: int| i <= j < v@.len() ==> v@[j] == s@[j],
        decreases v@.len() - i,
    {
        let c: char = v[i];
        if 'A' <= c && c <= 'Z' {
            let d: char = (c as u8 + 32) as char;
            v.set(i, d);
        }
        i = i + 1;
    }
    assert(v@ == lower(s@));
    v
}

} // verus!
