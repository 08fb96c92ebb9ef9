//! The block in the user's shell configuration.
use crate::text::{chars_of, contains_part, find, find_from, find_last, find_last_before, lemma_find, lemma_find_last, lemma_find_last_is, part_at, starts_with, string_of};
use vstd::prelude::*;

verus! {

// ---------------------------------------------------------------------------
// The block

/// The line before the block.
pub open spec fn start_marker() -> Seq<char> {
    "# >>> ct >>>"@
}

/// The line after the block.
pub open spec fn end_marker() -> Seq<char> {
    "# <<< ct <<<"@
}

/// How long each of the two markers is.
const MARKER_LEN: usize = 12;

/// The shell function, up to where it takes the prefix off an answer.
pub open spec fn function_head() -> Seq<char> {
    "\nct() {\n  if [ \"$1\" = \"cd\" ]; then\n"@ + "    local __ct_out\n"@
        + "    __ct_out=\"$(command ct --shell-bridge \"$@\")\"\n"@ + "    local __ct_rc=$?\n\n"@
        + "    if [ $__ct_rc -ne 0 ]; then\n"@
        + "      [ -n \"$__ct_out\" ] && printf '%s\\n' \"$__ct_out\" >&2\n"@
        + "      return $__ct_rc\n    fi\n\n"@ + "    case \"$__ct_out\" in\n      __CT_BUILTIN__\\ *)\n"@
        + "        eval \"${__ct_out"@
}

/// The rest of the shell function.
pub open spec fn function_tail() -> Seq<char> {
    "__CT_BUILTIN__ }\"\n        return $?\n        ;;\n"@ + "      *)\n"@
        + "        [ -n \"$__ct_out\" ] && printf '%s\\n' \"$__ct_out\"\n"@
        + "        return 0\n        ;;\n    esac\n  fi\n\n"@ + "  command ct \"$@\"\n}\n"@
}

/// The block: a shell function between its two markers.
pub open spec fn block_text() -> Seq<char> {
    start_marker() + function_head() + "#"@ + function_tail() + end_marker()
}

/// The block.
pub fn ct_block() -> (r: String)
    ensures
        r@ == block_text(),
{
    let mut out: String = "# >>> ct >>>".to_string();
    out.append("\nct() {\n  if [ \"$1\" = \"cd\" ]; then\n");
    out.append("    local __ct_out\n");
    out.append("    __ct_out=\"$(command ct --shell-bridge \"$@\")\"\n");
    out.append("    local __ct_rc=$?\n\n");
    out.append("    if [ $__ct_rc -ne 0 ]; then\n");
    out.append("      [ -n \"$__ct_out\" ] && printf '%s\\n' \"$__ct_out\" >&2\n");
    out.append("      return $__ct_rc\n    fi\n\n");
    out.append("    case \"$__ct_out\" in\n      __CT_BUILTIN__\\ *)\n");
    out.append("        eval \"${__ct_out");
    assert(out@ == start_marker() + function_head());
    out.append("#");
    let ghost before = out@;
    out.append("__CT_BUILTIN__ }\"\n        return $?\n        ;;\n");
    out.append("      *)\n");
    out.append("        [ -n \"$__ct_out\" ] && printf '%s\\n' \"$__ct_out\"\n");
    out.append("        return 0\n        ;;\n    esac\n  fi\n\n");
    out.append("  command ct \"$@\"\n}\n");
    assert(out@ == before + function_tail());
    out.append("# <<< ct <<<");
    out
}

/// A text without `#` and without carriage returns.
spec fn without_hash(s: Seq<char>) -> bool {
    forall|j: int| 0 <= j < s.len() ==> #[trigger] s[j] != '#' && s[j] != '\r'
}

proof fn lemma_without_hash(a: Seq<char>, b: Seq<char>)
    requires
        without_hash(a),
        without_hash(b),
    ensures
        without_hash(a + b),
{
    assert forall|j: int| 0 <= j < (a + b).len() implies #[trigger] (a + b)[j] != '#' && (a + b)[j]
        != '\r' by {
        if j < a.len() {
            assert((a + b)[j] == a[j]);
        } else {
            assert((a + b)[j] == b[j - a.len()]);
        }
    }
}

proof fn lemma_function_head()
    ensures
        without_hash(function_head()),
{
    let a = "\nct() {\n  if [ \"$1\" = \"cd\" ]; then\n"@;
    let b = "    local __ct_out\n"@;
    let c = "    __ct_out=\"$(command ct --shell-bridge \"$@\")\"\n"@;
    let d = "    local __ct_rc=$?\n\n"@;
    let e = "    if [ $__ct_rc -ne 0 ]; then\n"@;
    let f = "      [ -n \"$__ct_out\" ] && printf '%s\\n' \"$__ct_out\" >&2\n"@;
    let g = "      return $__ct_rc\n    fi\n\n"@;
    let h = "    case \"$__ct_out\" in\n      __CT_BUILTIN__\\ *)\n"@;
    let i = "        eval \"${__ct_out"@;
    assert(without_hash(a)) by {
        reveal_strlit("\nct() {\n  if [ \"$1\" = \"cd\" ]; then\n");
    }
    assert(without_hash(b)) by {
        reveal_strlit("    local __ct_out\n");
    }
    assert(without_hash(c)) by {
        reveal_strlit("    __ct_out=\"$(command ct --shell-bridge \"$@\")\"\n");
    }
    assert(without_hash(d)) by {
        reveal_strlit("    local __ct_rc=$?\n\n");
    }
    assert(without_hash(e)) by {
        reveal_strlit("    if [ $__ct_rc -ne 0 ]; then\n");
    }
    assert(without_hash(f)) by {
        reveal_strlit("      [ -n \"$__ct_out\" ] && printf '%s\\n' \"$__ct_out\" >&2\n");
    }
    assert(without_hash(g)) by {
        reveal_strlit("      return $__ct_rc\n    fi\n\n");
    }
    assert(without_hash(h)) by {
        reveal_strlit("    case \"$__ct_out\" in\n      __CT_BUILTIN__\\ *)\n");
    }
    assert(without_hash(i)) by {
        reveal_strlit("        eval \"${__ct_out");
    }
    lemma_without_hash(a, b);
    lemma_without_hash(a + b, c);
    lemma_without_hash(a + b + c, d);
    lemma_without_hash(a + b + c + d, e);
    lemma_without_hash(a + b + c + d + e, f);
    lemma_without_hash(a + b + c + d + e + f, g);
    lemma_without_hash(a + b + c + d + e + f + g, h);
    lemma_without_hash(a + b + c + d + e + f + g + h, i);
}

proof fn lemma_function_tail()
    ensures
        without_hash(function_tail()),
        function_tail().len() > 0,
        function_tail()[0] == '_',
{
    let a = "__CT_BUILTIN__ }\"\n        return $?\n        ;;\n"@;
    let b = "      *)\n"@;
    let c = "        [ -n \"$__ct_out\" ] && printf '%s\\n' \"$__ct_out\"\n"@;
    let d = "        return 0\n        ;;\n    esac\n  fi\n\n"@;
    let e = "  command ct \"$@\"\n}\n"@;
    assert(without_hash(a) && a.len() > 0 && a[0] == '_') by {
        reveal_strlit("__CT_BUILTIN__ }\"\n        return $?\n        ;;\n");
    }
    assert(without_hash(b)) by {
        reveal_strlit("      *)\n");
    }
    assert(without_hash(c)) by {
        reveal_strlit("        [ -n \"$__ct_out\" ] && printf '%s\\n' \"$__ct_out\"\n");
    }
    assert(without_hash(d)) by {
        reveal_strlit("        return 0\n        ;;\n    esac\n  fi\n\n");
    }
    assert(without_hash(e)) by {
        reveal_strlit("  command ct \"$@\"\n}\n");
    }
    lemma_without_hash(a, b);
    lemma_without_hash(a + b, c);
    lemma_without_hash(a + b + c, d);
    lemma_without_hash(a + b + c + d, e);
}

/// A text between two markers: it starts with the one and ends with the other, and neither
/// stands anywhere else in it.
pub open spec fn is_marked(b: Seq<char>) -> bool {
    &&& starts_with(b, start_marker())
    &&& part_at(b, end_marker(), b.len() - end_marker().len())
    &&& forall|k: int| 0 < k ==> !part_at(b, start_marker(), k)
    &&& forall|k: int| 0 <= k < b.len() - end_marker().len() ==> !part_at(b, end_marker(), k)
}

/// A text that can be found again as a block, and that holds no carriage return.
pub open spec fn is_block(b: Seq<char>) -> bool {
    &&& is_marked(b)
    &&& forall|j: int| 0 <= j < b.len() ==> #[trigger] b[j] != '\r'
}

/// Where `#` stands in the block: at its markers, and once between them.
proof fn lemma_block_hashes()
    ensures
        ({
            let b = block_text();
            let at = (start_marker().len() + function_head().len()) as int;
            let last = b.len() - end_marker().len();
            &&& start_marker().len() == 12 && end_marker().len() == 12
            &&& 12 <= at && at + 1 < last
            &&& forall|j: int| 0 <= j < b.len() && #[trigger] b[j] == '#' ==> j == 0 || j == at || j == last
            &&& forall|j: int| 0 <= j < b.len() ==> #[trigger] b[j] != '\r'
            &&& b[2] == '>' && b[at + 1] == '_' && b[last + 2] == '<'
            &&& b.take(12) == start_marker()
            &&& b.subrange(last, b.len() as int) == end_marker()
        }),
{
    reveal_strlit("# >>> ct >>>");
    reveal_strlit("# <<< ct <<<");
    reveal_strlit("#");
    lemma_function_head();
    lemma_function_tail();
    let s = start_marker();
    let h = function_head();
    let t = function_tail();
    let e = end_marker();
    let b = block_text();
    let last = b.len() - e.len();
    let at = (s.len() + h.len()) as int;
    assert(b.take(s.len() as int) == s);
    assert(b.subrange(last, b.len() as int) == e);
    assert(b[2] == s[2] && b[at + 1] == t[0] && b[last + 2] == e[2]);
    assert forall|j: int| 0 <= j < b.len() implies (#[trigger] b[j] == '#' ==> j == 0 || j == at || j == last)
        && b[j] != '\r' by {
        if j < s.len() {
            assert(b[j] == s[j]);
        } else if j < at {
            assert(b[j] == h[j - s.len()]);
        } else if at < j && j < last {
            assert(b[j] == t[j - at - 1]);
        } else if j >= last {
            assert(b[j] == e[j - last]);
        }
    }
}

/// The block can be found again.
pub proof fn law_block_is_one()
    ensures
        is_block(block_text()),
{
    lemma_block_hashes();
    let s = start_marker();
    let e = end_marker();
    let b = block_text();
    let last = b.len() - e.len();
    let at = (s.len() + function_head().len()) as int;
    assert(s[0] == '#' && s[1] == ' ' && s[2] == '>' && e[0] == '#' && e[1] == ' ' && e[2] == '<') by {
        reveal_strlit("# >>> ct >>>");
        reveal_strlit("# <<< ct <<<");
    }
    assert forall|k: int| 0 <= k < last implies !part_at(b, e, k) by {
        if part_at(b, e, k) {
            let p = b.subrange(k, k + e.len());
            assert(p[0] == b[k] && p[1] == b[k + 1] && p[2] == b[k + 2]);
        }
    }
    assert forall|k: int| 0 < k implies !part_at(b, s, k) by {
        if part_at(b, s, k) {
            let p = b.subrange(k, k + s.len());
            assert(p[0] == b[k] && p[1] == b[k + 1] && p[2] == b[k + 2]);
        }
    }
}

// ---------------------------------------------------------------------------
// Line ends

/// A text with `\n` in place of every `\r\n`.
pub open spec fn unix_text(s: Seq<char>) -> Seq<char>
    decreases s.len(),
{
    if s.len() == 0 {
        Seq::empty()
    } else if s.len() >= 2 && s[0] == '\r' && s[1] == '\n' {
        seq!['\n'] + unix_text(s.skip(2))
    } else {
        seq![s[0]] + unix_text(s.skip(1))
    }
}

/// A text with `\n` in place of every `\r\n`.
pub fn normalize_newlines(text: &str) -> (r: String)
    ensures
        r@ == unix_text(text@),
{
    let v: Vec<char> = chars_of(text);
    let n: usize = v.len();
    let mut out: String = String::new();
    let mut i: usize = 0;
    assert(text@.skip(0) == text@);
    assert(out@ + unix_text(text@.skip(0)) == unix_text(text@));
    while i < n
        invariant
            i <= n,
            n == v@.len(),
            v@ == text@,
            out@ + unix_text(text@.skip(i as int)) == unix_text(text@),
        decreases n - i,
    {
        let ghost rest = text@.skip(i as int);
        let ghost before = out@;
        if i + 1 < n && v[i] == '\r' && v[i + 1] == '\n' {
            out.push('\n');
            proof {
                assert(rest[0] == '\r' && rest[1] == '\n');
                assert(rest.skip(2) == text@.skip(i + 2));
                assert(out@ + unix_text(text@.skip(i + 2)) == before + (seq!['\n'] + unix_text(
                    text@.skip(i + 2),
                )));
            }
            i = i + 2;
        } else {
            out.push(v[i]);
            proof {
                assert(rest[0] == v@[i as int]);
                if i + 1 < n {
                    assert(rest[1] == v@[i + 1]);
                }
                assert(rest.skip(1) == text@.skip(i + 1));
                assert(out@ + unix_text(text@.skip(i + 1)) == before + (seq![v@[i as int]] + unix_text(
                    text@.skip(i + 1),
                )));
            }
            i = i + 1;
        }
    }
    assert(text@.skip(i as int) == Seq::<char>::empty());
    assert(out@ + unix_text(text@.skip(i as int)) == out@);
    out
}

proof fn lemma_unix_concat(a: Seq<char>, b: Seq<char>)
    requires
        a.len() == 0 || a.last() != '\r',
    ensures
        unix_text(a + b) == unix_text(a) + unix_text(b),
    decreases a.len(),
{
    let s = a + b;
    if a.len() == 0 {
        assert(s == b);
        assert(unix_text(a) + unix_text(b) == unix_text(b));
    } else if a.len() >= 2 && a[0] == '\r' && a[1] == '\n' {
        let t = a.skip(2);
        if t.len() > 0 {
            assert(t.last() == a.last());
        }
        lemma_unix_concat(t, b);
        assert(s[0] == a[0] && s[1] == a[1]);
        assert(s.skip(2) == t + b);
        assert(unix_text(s) == unix_text(a) + unix_text(b));
    } else {
        let t = a.skip(1);
        if t.len() > 0 {
            assert(t.last() == a.last());
        }
        lemma_unix_concat(t, b);
        assert(s[0] == a[0]);
        assert(s.skip(1) == t + b);
        if a.len() >= 2 {
            assert(s[1] == a[1]);
        } else {
            assert(a[0] == a.last());
        }
        assert(unix_text(s) == unix_text(a) + unix_text(b));
    }
}

proof fn lemma_unix_stable(s: Seq<char>)
    requires
        !contains_part(s, "\r\n"@),
    ensures
        unix_text(s) == s,
    decreases s.len(),
{
    reveal_strlit("\r\n");
    if s.len() > 0 {
        let t = s.skip(1);
        assert(!contains_part(t, "\r\n"@)) by {
            if contains_part(t, "\r\n"@) {
                let k = choose|k: int| part_at(t, "\r\n"@, k);
                assert(s.subrange(k + 1, k + 3) == t.subrange(k, k + 2));
                assert(part_at(s, "\r\n"@, k + 1));
            }
        }
        lemma_unix_stable(t);
        if s.len() >= 2 && s[0] == '\r' && s[1] == '\n' {
            assert(s.subrange(0, 2) == "\r\n"@);
            assert(part_at(s, "\r\n"@, 0));
        }
        assert(seq![s[0]] + t == s);
    }
}

proof fn lemma_unix_last(s: Seq<char>)
    requires
        s.len() > 0,
        s.last() == '\n',
    ensures
        unix_text(s).len() > 0,
        unix_text(s).last() == '\n',
    decreases s.len(),
{
    if s.len() >= 2 && s[0] == '\r' && s[1] == '\n' {
        if s.len() > 2 {
            assert(s.skip(2).last() == s.last());
            lemma_unix_last(s.skip(2));
        } else {
            assert(s.skip(2) == Seq::<char>::empty());
            assert(unix_text(s.skip(2)) == Seq::<char>::empty());
        }
    } else if s.len() > 1 {
        assert(s.skip(1).last() == s.last());
        lemma_unix_last(s.skip(1));
    } else {
        assert(s.skip(1) == Seq::<char>::empty());
        assert(unix_text(s.skip(1)) == Seq::<char>::empty());
    }
}

/// A part of one line is found where line ends are as they were.
proof fn lemma_unix_prefix(s: Seq<char>, p: Seq<char>)
    requires
        starts_with(unix_text(s), p),
        forall|j: int| 0 <= j < p.len() ==> p[j] != '\n',
    ensures
        starts_with(s, p),
    decreases p.len(),
{
    let u = unix_text(s);
    if p.len() > 0 {
        assert(u.take(p.len() as int)[0] == p[0]);
        assert(u[0] == p[0]);
        assert(s.len() > 0);
        let t = s.skip(1);
        assert(u == seq![s[0]] + unix_text(t));
        let q = p.skip(1);
        assert(unix_text(t).take(q.len() as int) == q) by {
            assert forall|j: int| 0 <= j < q.len() implies unix_text(t)[j] == q[j] by {
                assert(u.take(p.len() as int)[j + 1] == p[j + 1]);
                assert(u[j + 1] == unix_text(t)[j]);
            }
        }
        lemma_unix_prefix(t, q);
        assert(s.take(p.len() as int) == p) by {
            assert forall|j: int| 0 <= j < p.len() implies s[j] == p[j] by {
                if j > 0 {
                    assert(t.take(q.len() as int)[j - 1] == q[j - 1]);
                    assert(t[j - 1] == s[j]);
                }
            }
        }
    } else {
        assert(s.take(0) == p);
    }
}

proof fn lemma_unix_part(s: Seq<char>, p: Seq<char>)
    requires
        contains_part(unix_text(s), p),
        p.len() > 0,
        forall|j: int| 0 <= j < p.len() ==> p[j] != '\n',
    ensures
        contains_part(s, p),
    decreases s.len(),
{
    let u = unix_text(s);
    let k = choose|k: int| part_at(u, p, k);
    if k == 0 {
        assert(u.take(p.len() as int) == u.subrange(0, p.len() as int));
        lemma_unix_prefix(s, p);
        assert(s.subrange(0, p.len() as int) == s.take(p.len() as int));
        assert(part_at(s, p, 0));
    } else {
        let d: int = if s.len() >= 2 && s[0] == '\r' && s[1] == '\n' {
            2
        } else {
            1
        };
        let t = s.skip(d);
        let ut = unix_text(t);
        assert(u.skip(1) == ut);
        assert(ut.subrange(k - 1, k - 1 + p.len()) == u.subrange(k, k + p.len()));
        assert(part_at(ut, p, k - 1));
        lemma_unix_part(t, p);
        let m = choose|m: int| part_at(t, p, m);
        assert(s.subrange(m + d, m + d + p.len()) == t.subrange(m, m + p.len()));
        assert(part_at(s, p, m + d));
    }
}

/// So are two such parts, in the same order.
proof fn lemma_unix_parts(s: Seq<char>, p: Seq<char>, q: Seq<char>, a: int, b: int) -> (r: (int, int))
    requires
        part_at(unix_text(s), p, a),
        part_at(unix_text(s), q, b),
        a <= b,
        p.len() > 0,
        q.len() > 0,
        forall|j: int| 0 <= j < p.len() ==> p[j] != '\n',
        forall|j: int| 0 <= j < q.len() ==> q[j] != '\n',
    ensures
        part_at(s, p, r.0),
        part_at(s, q, r.1),
        r.0 <= r.1,
    decreases s.len(),
{
    let u = unix_text(s);
    if a == 0 {
        assert(u.take(p.len() as int) == u.subrange(0, p.len() as int));
        lemma_unix_prefix(s, p);
        assert(s.subrange(0, p.len() as int) == s.take(p.len() as int));
        lemma_unix_part(s, q);
        let m = choose|m: int| part_at(s, q, m);
        (0, m)
    } else {
        let d: int = if s.len() >= 2 && s[0] == '\r' && s[1] == '\n' {
            2
        } else {
            1
        };
        let t = s.skip(d);
        let ut = unix_text(t);
        assert(u.skip(1) == ut);
        assert(ut.subrange(a - 1, a - 1 + p.len()) == u.subrange(a, a + p.len()));
        assert(ut.subrange(b - 1, b - 1 + q.len()) == u.subrange(b, b + q.len()));
        let (m, n) = lemma_unix_parts(t, p, q, a - 1, b - 1);
        assert(s.subrange(m + d, m + d + p.len()) == t.subrange(m, m + p.len()));
        assert(s.subrange(n + d, n + d + q.len()) == t.subrange(n, n + q.len()));
        (m + d, n + d)
    }
}

// ---------------------------------------------------------------------------
// Finding the block

/// Where the markers of the block stand: the first end marker that comes after a start
/// marker, and the last start marker before it. A start marker without an end is no block.
pub open spec fn block_of(s: Seq<char>) -> Option<(int, int)> {
    match find(s, start_marker()) {
        Some(i) => match find(s.skip(i), end_marker()) {
            Some(k) => match find_last(s.take(i + k), start_marker()) {
                Some(m) => Some((m, i + k)),
                None => None,
            },
            None => None,
        },
        None => None,
    }
}

fn find_block(v: &[char]) -> (r: Option<(usize, usize)>)
    ensures
        match r {
            Some((i, j)) => block_of(v@) == Some((i as int, j as int)) && i <= j && j + MARKER_LEN <= v@.len(),
            None => block_of(v@) is None,
        },
{
    proof {
        reveal_strlit("# >>> ct >>>");
        reveal_strlit("# <<< ct <<<");
    }
    let start: Vec<char> = chars_of("# >>> ct >>>");
    let end: Vec<char> = chars_of("# <<< ct <<<");
    assert(v@.skip(0) == v@);
    match find_from(v, start.as_slice(), 0) {
        Some(i) => match find_from(v, end.as_slice(), i) {
            Some(j) => match find_last_before(v, start.as_slice(), j) {
                Some(m) => Some((m, j)),
                None => None,
            },
            None => None,
        },
        None => None,
    }
}

/// Two markers do not overlap.
proof fn lemma_markers_apart(s: Seq<char>, a: int, b: int)
    requires
        part_at(s, start_marker(), a),
        part_at(s, end_marker(), b),
        a <= b,
    ensures
        a + start_marker().len() <= b,
{
    reveal_strlit("# >>> ct >>>");
    reveal_strlit("# <<< ct <<<");
    let p = s.subrange(a, a + start_marker().len());
    let q = s.subrange(b, b + end_marker().len());
    if b < a + 12 {
        assert(q[0] == s[b] && p[b - a] == s[b]);
        assert(q[2] == s[b + 2]);
        if a == b {
            assert(p[2] == s[a + 2]);
        }
    }
}

proof fn lemma_part_of_skip(s: Seq<char>, p: Seq<char>, i: int, k: int)
    requires
        0 <= i <= s.len(),
        0 <= k,
    ensures
        part_at(s.skip(i), p, k) == part_at(s, p, i + k),
{
    if i + k + p.len() <= s.len() {
        assert(s.skip(i).subrange(k, k + p.len()) == s.subrange(i + k, i + k + p.len()));
    }
}

proof fn lemma_part_of_take(s: Seq<char>, p: Seq<char>, n: int, k: int)
    requires
        0 <= n <= s.len(),
        0 <= k,
    ensures
        part_at(s.take(n), p, k) == (part_at(s, p, k) && k + p.len() <= n),
{
    if k + p.len() <= n {
        assert(s.take(n).subrange(k, k + p.len()) == s.subrange(k, k + p.len()));
    }
}

/// A text has a block where an end marker comes after a start marker: it ends with the first
/// such end, and begins with the last start before it.
pub proof fn law_block_is_the_first_that_ends(s: Seq<char>)
    ensures
        match block_of(s) {
            Some((i, j)) => {
                &&& s.subrange(i, i + 12) == "# >>> ct >>>"@
                &&& s.subrange(j, j + 12) == "# <<< ct <<<"@
                &&& forall|a: int| i < a < j ==> !part_at(s, "# >>> ct >>>"@, a)
                &&& 0 <= i && j + 12 <= s.len()
            },
            None => true,
        },
        match block_of(s) {
            Some((i, j)) => {
                &&& i + 12 <= j
                &&& forall|a: int, b: int|
                    0 <= a <= b < j ==> !(part_at(s, "# >>> ct >>>"@, a) && part_at(s, "# <<< ct <<<"@, b))
            },
            None => forall|a: int, b: int|
                a <= b ==> !(part_at(s, "# >>> ct >>>"@, a) && part_at(s, "# <<< ct <<<"@, b)),
        },
{
    reveal_strlit("# >>> ct >>>");
    reveal_strlit("# <<< ct <<<");
    lemma_block_of(s);
    if let Some((i, j)) = block_of(s) {
        let t = s.take(j);
        lemma_find_last(t, start_marker());
        assert forall|a: int| i < a < j implies !part_at(s, start_marker(), a) by {
            if part_at(s, start_marker(), a) {
                lemma_markers_apart(s, a, j);
                lemma_part_of_take(s, start_marker(), j, a);
            }
        }
    }
}

proof fn lemma_block_of(s: Seq<char>)
    ensures
        match block_of(s) {
            Some((i, j)) => {
                &&& part_at(s, start_marker(), i)
                &&& part_at(s, end_marker(), j)
                &&& i + start_marker().len() <= j
                &&& forall|a: int, b: int|
                    0 <= a <= b < j ==> !(part_at(s, start_marker(), a) && part_at(s, end_marker(), b))
            },
            None => forall|a: int, b: int|
                a <= b ==> !(part_at(s, start_marker(), a) && part_at(s, end_marker(), b)),
        },
{
    lemma_find(s, start_marker());
    match find(s, start_marker()) {
        Some(i) => {
            let t = s.skip(i);
            lemma_find(t, end_marker());
            assert forall|b: int| i <= b implies part_at(t, end_marker(), b - i) == #[trigger] part_at(
                s,
                end_marker(),
                b,
            ) by {
                lemma_part_of_skip(s, end_marker(), i, b - i);
            }
            match find(t, end_marker()) {
                Some(k) => {
                    let j = i + k;
                    assert(part_at(s, end_marker(), j));
                    lemma_markers_apart(s, i, j);
                    lemma_part_of_take(s, start_marker(), j, i);
                    lemma_find_last(s.take(j), start_marker());
                    assert(contains_part(s.take(j), start_marker()));
                    let m = find_last(s.take(j), start_marker())->0;
                    lemma_part_of_take(s, start_marker(), j, m);
                    assert forall|a: int, b: int| 0 <= a <= b < j implies !(part_at(s, start_marker(), a)
                        && part_at(s, end_marker(), b)) by {
                        if part_at(s, start_marker(), a) && part_at(s, end_marker(), b) {
                            assert(i <= a);
                            assert(part_at(t, end_marker(), b - i));
                        }
                    }
                },
                None => {
                    assert forall|a: int, b: int| a <= b implies !(part_at(s, start_marker(), a) && part_at(
                        s,
                        end_marker(),
                        b,
                    )) by {
                        if part_at(s, start_marker(), a) && part_at(s, end_marker(), b) {
                            assert(i <= a);
                            assert(part_at(t, end_marker(), b - i));
                        }
                    }
                },
            }
        },
        None => {},
    }
}

proof fn lemma_no_block(s: Seq<char>)
    requires
        forall|a: int, b: int| a <= b ==> !(part_at(s, start_marker(), a) && part_at(s, end_marker(), b)),
    ensures
        block_of(s) is None,
{
    lemma_block_of(s);
    match block_of(s) {
        Some((i, j)) => {
            assert(i <= j);
        },
        None => {},
    }
}

/// What stands before the block holds none.
proof fn lemma_no_block_before(s: Seq<char>)
    requires
        block_of(s) is Some,
    ensures
        ({
            let (i, j) = block_of(s)->0;
            0 <= i && i <= s.len() && block_of(s.take(i)) is None
        }),
{
    reveal_strlit("# >>> ct >>>");
    lemma_block_of(s);
    let (i, j) = block_of(s)->0;
    let t = s.take(i);
    assert forall|a: int, b: int| a <= b implies !(part_at(t, start_marker(), a) && part_at(
        t,
        end_marker(),
        b,
    )) by {
        if part_at(t, start_marker(), a) && part_at(t, end_marker(), b) {
            lemma_part_of_take(s, start_marker(), i, a);
            lemma_part_of_take(s, end_marker(), i, b);
        }
    }
    lemma_no_block(t);
}

/// Neither does a text without one, with another line end.
proof fn lemma_no_block_with_line_end(s: Seq<char>)
    requires
        block_of(s) is None,
    ensures
        block_of(s + seq!['\n']) is None,
{
    reveal_strlit("# >>> ct >>>");
    reveal_strlit("# <<< ct <<<");
    let t = s + seq!['\n'];
    lemma_block_of(s);
    assert forall|a: int, b: int| a <= b implies !(part_at(t, start_marker(), a) && part_at(
        t,
        end_marker(),
        b,
    )) by {
        if part_at(t, start_marker(), a) && part_at(t, end_marker(), b) {
            lemma_part_in_line(s, start_marker(), a);
            lemma_part_in_line(s, end_marker(), b);
        }
    }
    lemma_no_block(t);
}

proof fn lemma_part_in_line(s: Seq<char>, p: Seq<char>, k: int)
    requires
        part_at(s + seq!['\n'], p, k),
        p.len() > 0,
        forall|j: int| 0 <= j < p.len() ==> p[j] != '\n',
    ensures
        part_at(s, p, k),
{
    let t = s + seq!['\n'];
    let q = t.subrange(k, k + p.len());
    if k + p.len() <= s.len() {
        assert(s.subrange(k, k + p.len()) == q);
    } else {
        assert(q[p.len() - 1] == t[s.len() as int]);
        assert(p[p.len() - 1] != '\n');
    }
}

/// Nor one with its line ends replaced.
proof fn lemma_no_block_in_unix(s: Seq<char>)
    requires
        block_of(s) is None,
    ensures
        block_of(unix_text(s)) is None,
{
    reveal_strlit("# >>> ct >>>");
    reveal_strlit("# <<< ct <<<");
    let u = unix_text(s);
    lemma_block_of(s);
    assert forall|a: int, b: int| a <= b implies !(part_at(u, start_marker(), a) && part_at(
        u,
        end_marker(),
        b,
    )) by {
        if part_at(u, start_marker(), a) && part_at(u, end_marker(), b) {
            let r = lemma_unix_parts(s, start_marker(), end_marker(), a, b);
        }
    }
    lemma_no_block(u);
}

/// A marker behind a text does not begin in that text, where a marker follows.
proof fn lemma_no_straddle(lead: Seq<char>, tail: Seq<char>, p: Seq<char>, k: int)
    requires
        p == start_marker() || p == end_marker(),
        starts_with(tail, start_marker()),
        part_at(lead + tail, p, k),
        k < lead.len(),
    ensures
        part_at(lead, p, k),
{
    reveal_strlit("# >>> ct >>>");
    reveal_strlit("# <<< ct <<<");
    let s = lead + tail;
    let n = lead.len() as int;
    let q = s.subrange(k, k + p.len());
    if k + p.len() <= n {
        assert(lead.subrange(k, k + p.len()) == q);
    } else {
        assert(q[n - k] == s[n]);
        assert(tail.take(start_marker().len() as int)[0] == tail[0]);
        assert(s[n] == '#');
    }
}

/// A text between two markers is the block, where none stands before it.
proof fn lemma_block_is_found(lead: Seq<char>, b: Seq<char>, rest: Seq<char>)
    requires
        is_marked(b),
        block_of(lead) is None,
    ensures
        block_of(lead + b + rest) == Some(
            (lead.len() as int, (lead.len() + b.len() - end_marker().len()) as int),
        ),
{
    reveal_strlit("# >>> ct >>>");
    reveal_strlit("# <<< ct <<<");
    let s = start_marker();
    let e = end_marker();
    let u = lead + b + rest;
    let tail = b + rest;
    let n = lead.len() as int;
    let at = b.len() - e.len();
    let j = n + at;
    assert(u == lead + tail);
    assert(b.subrange(0, s.len() as int) == b.take(s.len() as int));
    lemma_markers_apart(b, 0, at);
    assert(tail.take(s.len() as int) == b.take(s.len() as int));
    assert(u.subrange(n, n + s.len()) == b.subrange(0, s.len() as int));
    assert(u.subrange(j, j + e.len()) == b.subrange(at, at + e.len()));
    lemma_block_of(lead);
    lemma_block_of(u);
    assert(part_at(u, s, n) && part_at(u, e, j));
    let (m, k) = block_of(u)->0;
    assert(k <= j) by {
        if j < k {
            assert(0 <= n <= j < k);
        }
    }
    assert(k == j) by {
        if k < j {
            if k < n {
                lemma_no_straddle(lead, tail, e, k);
                lemma_no_straddle(lead, tail, s, m);
            } else {
                assert(b.subrange(k - n, k - n + e.len()) == u.subrange(k, k + e.len()));
                assert(part_at(b, e, k - n));
            }
        }
    }
    let t = u.take(j);
    lemma_part_of_take(u, s, j, n);
    assert forall|a: int| n < a implies !part_at(t, s, a) by {
        if part_at(t, s, a) {
            lemma_part_of_take(u, s, j, a);
            assert(b.subrange(a - n, a - n + s.len()) == u.subrange(a, a + s.len()));
            assert(part_at(b, s, a - n));
        }
    }
    lemma_find_last_is(t, s, n);
}

// ---------------------------------------------------------------------------
// Placing the block

/// A text with a line end at its end, unless it is empty.
pub open spec fn with_line_end(s: Seq<char>) -> Seq<char> {
    if s.len() > 0 && s.last() != '\n' {
        s + "\n"@
    } else {
        s
    }
}

/// Whether a line end comes first.
pub open spec fn at_line_end(s: Seq<char>) -> bool {
    (s.len() > 0 && s[0] == '\n') || (s.len() > 1 && s[0] == '\r' && s[1] == '\n')
}

/// A block between what stood before and after the one that it replaces.
pub open spec fn replaced(before: Seq<char>, block: Seq<char>, after: Seq<char>) -> Seq<char> {
    let head = with_line_end(before) + block;
    if after.len() == 0 || at_line_end(after) || (head.len() > 0 && head.last() == '\n') {
        head + after
    } else {
        head + "\n"@ + after
    }
}

/// A block after a text, with an empty line between them.
pub open spec fn appended(current: Seq<char>, block: Seq<char>) -> Seq<char> {
    if current.len() == 0 {
        block + "\n"@
    } else {
        with_line_end(current) + "\n"@ + block + "\n"@
    }
}

/// A text with the block: in place of the one that it has, or at the end.
pub open spec fn upserted(current: Seq<char>, block: Seq<char>) -> Seq<char> {
    match block_of(current) {
        Some((i, j)) => unix_text(
            replaced(current.take(i), block, current.skip(j + end_marker().len())),
        ),
        None => unix_text(appended(current, block)),
    }
}

fn ends_line(s: &str) -> (r: bool)
    ensures
        r == (s@.len() > 0 && s@.last() == '\n'),
{
    let v: Vec<char> = chars_of(s);
    v.len() > 0 && v[v.len() - 1] == '\n'
}

/// A text with the block.
pub fn upsert_block(current: &str, block: &str) -> (r: String)
    ensures
        r@ == upserted(current@, block@),
{
    let v: Vec<char> = chars_of(current);
    let n: usize = v.len();
    proof {
        reveal_strlit("# <<< ct <<<");
    }
    if let Some((i, j)) = find_block(v.as_slice()) {
        let after: usize = j + MARKER_LEN;
        let mut out: String = string_of(v.as_slice(), 0, i);
        let ghost before = current@.take(i as int);
        let ghost rest = current@.skip(after as int);
        assert(out@ == before);
        if i > 0 && !ends_line(out.as_str()) {
            out.append("\n");
        }
        assert(out@ == with_line_end(before));
        out.append(block);
        if after < n {
            let open: bool = v[after] == '\n' || (v[after] == '\r' && n - after > 1 && v[after + 1] == '\n');
            proof {
                assert(rest[0] == v@[after as int]);
                if n - after > 1 {
                    assert(rest[1] == v@[after + 1]);
                }
                assert(open == at_line_end(rest));
            }
            if !open && !ends_line(out.as_str()) {
                out.append("\n");
            }
            let tail: String = string_of(v.as_slice(), after, n);
            assert(tail@ == rest);
            out.append(tail.as_str());
        } else {
            assert(rest == Seq::<char>::empty());
        }
        assert(out@ == replaced(before, block@, rest));
        return normalize_newlines(out.as_str());
    }
    let mut out: String = current.to_string();
    if n > 0 {
        if !ends_line(current) {
            out.append("\n");
        }
        out.append("\n");
    }
    out.append(block);
    out.append("\n");
    assert(out@ == appended(current@, block@)) by {
        if n == 0 {
            assert(current@ == Seq::<char>::empty());
        }
    }
    normalize_newlines(out.as_str())
}

proof fn lemma_block_unix(block: Seq<char>)
    requires
        is_block(block),
    ensures
        unix_text(block) == block,
        block.len() > 0,
        block.last() == '<',
{
    reveal_strlit("# <<< ct <<<");
    reveal_strlit("\r\n");
    let k = block.len() - end_marker().len();
    assert(block.subrange(k, k + end_marker().len())[11] == block[k + 11]);
    assert(!contains_part(block, "\r\n"@)) by {
        if contains_part(block, "\r\n"@) {
            let j = choose|j: int| part_at(block, "\r\n"@, j);
            assert(block.subrange(j, j + 2)[0] == block[j]);
        }
    }
    lemma_unix_stable(block);
}

/// Line ends before and after a block are replaced apart from each other.
proof fn lemma_unix_around(lead: Seq<char>, block: Seq<char>, rest: Seq<char>)
    requires
        is_block(block),
        lead.len() == 0 || lead.last() != '\r',
    ensures
        unix_text(lead + block + rest) == unix_text(lead) + block + unix_text(rest),
{
    lemma_block_unix(block);
    assert((lead + block).last() == block.last());
    lemma_unix_concat(lead + block, rest);
    lemma_unix_concat(lead, block);
}

/// A block, with whole lines before it and a line end or nothing after it, stays where it
/// is.
proof fn lemma_block_stays(lead: Seq<char>, block: Seq<char>, rest: Seq<char>)
    requires
        is_block(block),
        lead.len() == 0 || lead.last() == '\n',
        block_of(lead) is None,
        rest.len() == 0 || at_line_end(rest),
        !contains_part(unix_text(lead + block + rest), "\r\n"@),
    ensures
        upserted(unix_text(lead + block + rest), block) == unix_text(lead + block + rest),
{
    let ul = unix_text(lead);
    let ur = unix_text(rest);
    let u = ul + block + ur;
    if lead.len() > 0 {
        lemma_unix_last(lead);
    }
    lemma_unix_around(lead, block, rest);
    lemma_no_block_in_unix(lead);
    lemma_block_is_found(ul, block, ur);
    assert(u.take(ul.len() as int) == ul);
    assert(u.skip((ul.len() + block.len()) as int) == ur);
    assert(with_line_end(ul) == ul);
    assert(replaced(ul, block, ur) == u);
    lemma_unix_stable(u);
}

/// Placing the block again changes nothing. Left out are texts that leave a `\r\n` behind.
pub proof fn law_placing_twice_is_once(current: Seq<char>, block: Seq<char>)
    requires
        is_block(block),
        !contains_part(upserted(current, block), "\r\n"@),
    ensures
        upserted(upserted(current, block), block) == upserted(current, block),
{
    reveal_strlit("\n");
    let nl = seq!['\n'];
    assert("\n"@ == nl);
    lemma_block_unix(block);
    match block_of(current) {
        Some((i, j)) => {
            let before = current.take(i);
            let after = current.skip(j + end_marker().len());
            let lead = with_line_end(before);
            lemma_no_block_before(current);
            lemma_no_block_with_line_end(before);
            assert((lead + block).last() == '<');
            let rest = if after.len() == 0 || at_line_end(after) {
                after
            } else {
                nl + after
            };
            assert(replaced(before, block, after) == lead + block + rest);
            lemma_block_stays(lead, block, rest);
        },
        None => {
            let lead = if current.len() == 0 {
                current
            } else {
                with_line_end(current) + nl
            };
            lemma_no_block_with_line_end(current);
            lemma_no_block_with_line_end(with_line_end(current));
            assert(appended(current, block) == lead + block + nl);
            lemma_block_stays(lead, block, nl);
        },
    }
}

/// What stands outside the markers is kept: the block takes the place of the other one, on
/// lines of its own. Where it has them already, the text before it and the text after it
/// change in their line ends alone.
pub proof fn law_rest_is_kept(before: Seq<char>, inside: Seq<char>, after: Seq<char>, block: Seq<char>)
    requires
        block_of(before) is None,
        is_marked(inside),
        is_block(block),
    ensures
        upserted(before + inside + after, block) == unix_text(replaced(before, block, after)),
        (before.len() == 0 || before.last() == '\n') && (after.len() == 0 || after[0] == '\n') ==> upserted(
            before + inside + after,
            block,
        ) == unix_text(before) + block + unix_text(after),
{
    let u = before + inside + after;
    lemma_block_is_found(before, inside, after);
    assert(u.take(before.len() as int) == before);
    assert(u.skip((before.len() + inside.len()) as int) == after);
    if (before.len() == 0 || before.last() == '\n') && (after.len() == 0 || after[0] == '\n') {
        assert(replaced(before, block, after) == before + block + after);
        lemma_unix_around(before, block, after);
    }
}

/// A text without a block is kept whole, with the block behind it: its line ends alone
/// change.
pub proof fn law_text_is_kept(current: Seq<char>, block: Seq<char>)
    requires
        block_of(current) is None,
        is_block(block),
        current.len() > 0,
    ensures
        upserted(current, block) == unix_text(with_line_end(current)) + "\n"@ + block + "\n"@,
{
    reveal_strlit("\n");
    let nl = seq!['\n'];
    let lines = with_line_end(current);
    let none = Seq::<char>::empty();
    assert(unix_text(nl) == nl) by {
        assert(nl.skip(1) == none);
        assert(unix_text(none) == none);
        assert(nl + none == nl);
    }
    assert(appended(current, block) == (lines + nl) + block + nl);
    lemma_unix_around(lines + nl, block, nl);
    lemma_unix_concat(lines, nl);
}

// ---------------------------------------------------------------------------
// The backup

/// Whether a file is to be copied before it is changed: where it exists and its backup does
/// not.
pub fn needs_backup(target: bool, backup: bool) -> (r: bool)
    ensures
        r == (target && !backup),
{
    target && !backup
}

/// The backup of a file.
pub fn backup_path(target: &str) -> (r: String)
    ensures
        r@ == target@ + ".ct.bak"@,
{
    let mut out: String = target.to_string();
    out.append(".ct.bak");
    out
}

// ---------------------------------------------------------------------------
// What placing the block does to the text around it

/// Every `\r\n` becomes `\n`, and every other character stays.
pub proof fn law_line_ends(c: char, rest: Seq<char>)
    ensures
        unix_text(Seq::<char>::empty()) == Seq::<char>::empty(),
        unix_text(seq!['\r', '\n'] + rest) == seq!['\n'] + unix_text(rest),
        !(c == '\r' && rest.len() > 0 && rest[0] == '\n') ==> unix_text(seq![c] + rest) == seq![c] + unix_text(rest),
{
    let a = seq!['\r', '\n'] + rest;
    assert(a[0] == '\r' && a[1] == '\n');
    assert(a.skip(2) == rest);
    let b = seq![c] + rest;
    assert(b[0] == c);
    if rest.len() > 0 {
        assert(b[1] == rest[0]);
    }
    assert(b.skip(1) == rest);
}

/// The block stands on lines of its own: a line end is put before it, and behind it, where
/// there is text and no line end. Nothing else is added and nothing is taken away.
pub proof fn law_block_stands_on_its_own_lines(before: Seq<char>, block: Seq<char>, after: Seq<char>)
    requires
        block.len() > 0,
        block[block.len() - 1] != '\n',
    ensures
        ({
            let first = before.len() == 0 || before[before.len() - 1] == '\n';
            let last = after.len() == 0 || after[0] == '\n' || (after.len() > 1 && after[0] == '\r' && after[1]
                == '\n');
            replaced(before, block, after) == before + (if first {
                Seq::<char>::empty()
            } else {
                seq!['\n']
            }) + block + (if last {
                Seq::<char>::empty()
            } else {
                seq!['\n']
            }) + after
        }),
        before.len() == 0 ==> appended(before, block) == block + seq!['\n'],
        before.len() > 0 && before[before.len() - 1] == '\n' ==> appended(before, block) == before + seq!['\n'] + block
            + seq!['\n'],
        before.len() > 0 && before[before.len() - 1] != '\n' ==> appended(before, block) == before + seq!['\n', '\n']
            + block + seq!['\n'],
{
    reveal_strlit("\n");
    assert("\n"@ == seq!['\n']);
    let none = Seq::<char>::empty();
    let lead = with_line_end(before);
    let head = lead + block;
    assert(head.last() == block[block.len() - 1]);
    assert(before + none == before);
    assert(head + none == head);
    if before.len() > 0 && before[before.len() - 1] != '\n' {
        assert(before + seq!['\n'] + seq!['\n'] == before + seq!['\n', '\n']);
    }
}

} // verus!
