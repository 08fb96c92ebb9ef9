//! Command lines as a shell reads them.
use crate::text::{chars_of, same, texts};
use vstd::prelude::*;

verus! {

// ---------------------------------------------------------------------------
// Quoting

/// A character that a shell takes as it is.
pub open spec fn is_plain(c: char) -> bool {
    ('a' <= c && c <= 'z') || ('A' <= c && c <= 'Z') || ('0' <= c && c <= '9') || c == '_' || c == '-'
        || c == '.' || c == '/' || c == ':' || c == '='
}

/// A word made of such characters.
pub open spec fn all_plain(s: Seq<char>) -> bool {
    forall|i: int| 0 <= i < s.len() ==> is_plain(#[trigger] s[i])
}

/// A character inside single quotes: a quote ends them, stands escaped, and opens them
/// again.
pub open spec fn quoted_char(c: char) -> Seq<char> {
    if c == '\'' {
        seq!['\'', '\\', '\'', '\'']
    } else {
        seq![c]
    }
}

/// A text inside single quotes.
pub open spec fn quoted_body(s: Seq<char>) -> Seq<char>
    decreases s.len(),
{
    if s.len() == 0 {
        Seq::empty()
    } else {
        quoted_char(s[0]) + quoted_body(s.skip(1))
    }
}

/// A word as it stands on a command line.
pub open spec fn escaped(s: Seq<char>) -> Seq<char> {
    if s.len() > 0 && all_plain(s) {
        s
    } else {
        seq!['\''] + quoted_body(s) + seq!['\'']
    }
}

proof fn lemma_quoted_body_push(s: Seq<char>, c: char)
    ensures
        quoted_body(s.push(c)) == quoted_body(s) + quoted_char(c),
    decreases s.len(),
{
    if s.len() == 0 {
        assert(s.push(c).skip(1) == Seq::<char>::empty());
        assert(quoted_body(Seq::<char>::empty()) == Seq::<char>::empty());
        assert(quoted_char(c) + Seq::<char>::empty() == Seq::<char>::empty() + quoted_char(c));
    } else {
        lemma_quoted_body_push(s.skip(1), c);
        assert(s.push(c).skip(1) == s.skip(1).push(c));
        assert(quoted_body(s.push(c)) == quoted_body(s) + quoted_char(c));
    }
}

/// A word as it stands on a command line.
pub fn shell_escape(input: &str) -> (r: String)
    ensures
        r@ == escaped(input@),
{
    let v: Vec<char> = chars_of(input);
    let mut plain: bool = true;
    let mut i: usize = 0;
    while i < v.len()
        invariant
            i <= v@.len(),
            v@ == input@,
            plain == (forall|j: int| 0 <= j < i ==> is_plain(#[trigger] v@[j])),
        decreases v@.len() - i,
    {
        let c: char = v[i];
        let ok: bool = ('a' <= c && c <= 'z') || ('A' <= c && c <= 'Z') || ('0' <= c && c <= '9') || c == '_'
            || c == '-' || c == '.' || c == '/' || c == ':' || c == '=';
        assert(ok == is_plain(v@[i as int]));
        plain = plain && ok;
        i = i + 1;
    }
    if plain && v.len() > 0 {
        return input.to_string();
    }
    let mut out: String = String::new();
    out.push('\'');
    let mut k: usize = 0;
    assert(input@.take(0) == Seq::<char>::empty());
    assert(out@ == seq!['\''] + quoted_body(input@.take(0)));
    while k < v.len()
        invariant
            k <= v@.len(),
            v@ == input@,
            out@ == seq!['\''] + quoted_body(input@.take(k as int)),
        decreases v@.len() - k,
    {
        let ghost before = out@;
        proof {
            assert(input@.take(k + 1) == input@.take(k as int).push(v@[k as int]));
            lemma_quoted_body_push(input@.take(k as int), v@[k as int]);
        }
        if v[k] == '\'' {
            out.push('\'');
            out.push('\\');
            out.push('\'');
            out.push('\'');
        } else {
            out.push(v[k]);
        }
        assert(out@ == before + quoted_char(v@[k as int]));
        k = k + 1;
    }
    assert(input@.take(k as int) == input@);
    out.push('\'');
    out
}

// ---------------------------------------------------------------------------
// Command lines

/// The words, each after a space but the first.
pub open spec fn spaced(parts: Seq<Seq<char>>) -> Seq<char>
    decreases parts.len(),
{
    if parts.len() == 0 {
        Seq::empty()
    } else if parts.len() == 1 {
        parts[0]
    } else {
        parts[0] + " "@ + spaced(parts.skip(1))
    }
}

/// The command line that runs a program with arguments.
pub open spec fn command_line(args: Seq<Seq<char>>) -> Seq<char> {
    spaced(args.map_values(|a: Seq<char>| escaped(a)))
}

/// One more word comes behind one more space.
pub proof fn lemma_spaced_push(parts: Seq<Seq<char>>, part: Seq<char>)
    requires
        parts.len() > 0,
    ensures
        spaced(parts.push(part)) == spaced(parts) + " "@ + part,
    decreases parts.len(),
{
    let all = parts.push(part);
    if parts.len() == 1 {
        assert(all.skip(1) == seq![part]);
        assert(spaced(seq![part]) == part);
        assert(spaced(all) == parts[0] + " "@ + part);
    } else {
        lemma_spaced_push(parts.skip(1), part);
        assert(all.skip(1) == parts.skip(1).push(part));
        assert(spaced(all) == spaced(parts) + " "@ + part);
    }
}

/// Appends arguments to a command line.
fn push_args(out: &mut String, args: &[String], Ghost(head): Ghost<Seq<Seq<char>>>)
    requires
        head.len() > 0,
        old(out)@ == spaced(head),
    ensures
        final(out)@ == spaced(head + texts(args@).map_values(|a: Seq<char>| escaped(a))),
{
    let ghost all = texts(args@).map_values(|a: Seq<char>| escaped(a));
    let mut i: usize = 0;
    assert(head + all.take(0) == head);
    while i < args.len()
        invariant
            i <= args@.len(),
            head.len() > 0,
            all == texts(args@).map_values(|a: Seq<char>| escaped(a)),
            out@ == spaced(head + all.take(i as int)),
        decreases args@.len() - i,
    {
        let word: String = shell_escape(args[i].as_str());
        proof {
            assert(word@ == all[i as int]);
            assert(head + all.take(i + 1) == (head + all.take(i as int)).push(word@));
            lemma_spaced_push(head + all.take(i as int), word@);
        }
        out.append(" ");
        out.append(word.as_str());
        i = i + 1;
    }
    assert(all.take(i as int) == all);
}

/// The command line that runs `cmd` with `args`.
pub fn format_command(cmd: &str, args: &[String]) -> (r: String)
    ensures
        r@ == command_line(seq![cmd@] + texts(args@)),
{
    let mut out: String = shell_escape(cmd);
    let ghost head = seq![escaped(cmd@)];
    push_args(&mut out, args, Ghost(head));
    proof {
        let f = |a: Seq<char>| escaped(a);
        assert((seq![cmd@] + texts(args@)).map_values(f) == head + texts(args@).map_values(f));
    }
    out
}

// ---------------------------------------------------------------------------
// Reading a command line

/// The words of a command line made of plain characters, single quotes and escapes, where
/// `word` has been read so far and `quoted` tells whether quotes are open; none where a
/// quote or an escape is left open.
pub open spec fn shell_words(s: Seq<char>, word: Option<Seq<char>>, quoted: bool) -> Option<Seq<Seq<char>>>
    decreases s.len(),
{
    let held = match word {
        Some(w) => w,
        None => Seq::empty(),
    };
    if s.len() == 0 {
        if quoted {
            None
        } else {
            match word {
                Some(w) => Some(seq![w]),
                None => Some(Seq::empty()),
            }
        }
    } else if quoted {
        if s[0] == '\'' {
            shell_words(s.skip(1), Some(held), false)
        } else {
            shell_words(s.skip(1), Some(held.push(s[0])), true)
        }
    } else if s[0] == '\'' {
        shell_words(s.skip(1), Some(held), true)
    } else if s[0] == '\\' {
        if s.len() == 1 {
            None
        } else {
            shell_words(s.skip(2), Some(held.push(s[1])), false)
        }
    } else if s[0] == ' ' {
        match shell_words(s.skip(1), None, false) {
            Some(rest) => match word {
                Some(w) => Some(seq![w] + rest),
                None => Some(rest),
            },
            None => None,
        }
    } else {
        shell_words(s.skip(1), Some(held.push(s[0])), false)
    }
}

proof fn lemma_read_plain(p: Seq<char>, tail: Seq<char>, held: Seq<char>)
    requires
        all_plain(p),
    ensures
        shell_words(p + tail, Some(held), false) == shell_words(tail, Some(held + p), false),
    decreases p.len(),
{
    if p.len() == 0 {
        assert(p + tail == tail);
        assert(held + p == held);
    } else {
        let s = p + tail;
        assert(is_plain(p[0]));
        assert(s[0] == p[0]);
        assert(s.skip(1) == p.skip(1) + tail);
        assert(all_plain(p.skip(1))) by {
            assert forall|i: int| 0 <= i < p.skip(1).len() implies is_plain(#[trigger] p.skip(1)[i]) by {
                assert(p.skip(1)[i] == p[i + 1]);
            }
        }
        lemma_read_plain(p.skip(1), tail, held.push(p[0]));
        assert(held.push(p[0]) + p.skip(1) == held + p);
    }
}

proof fn lemma_read_quoted(s: Seq<char>, tail: Seq<char>, held: Seq<char>)
    ensures
        shell_words(quoted_body(s) + seq!['\''] + tail, Some(held), true) == shell_words(
            tail,
            Some(held + s),
            false,
        ),
    decreases s.len(),
{
    let rest = quoted_body(s.skip(1)) + seq!['\''] + tail;
    if s.len() == 0 {
        let t = quoted_body(s) + seq!['\''] + tail;
        assert(t == seq!['\''] + tail);
        assert(t[0] == '\'');
        assert(t.skip(1) == tail);
        assert(held + s == held);
    } else {
        let c = s[0];
        let t = quoted_body(s) + seq!['\''] + tail;
        assert(t == quoted_char(c) + rest);
        lemma_read_quoted(s.skip(1), tail, held.push(c));
        assert(held.push(c) + s.skip(1) == held + s);
        if c == '\'' {
            let t1 = seq!['\\', '\'', '\''] + rest;
            let t2 = seq!['\''] + rest;
            assert(t[0] == '\'');
            assert(t.skip(1) == t1);
            assert(t1[0] == '\\' && t1[1] == '\'');
            assert(t1.skip(2) == t2);
            assert(t2[0] == '\'');
            assert(t2.skip(1) == rest);
            assert(shell_words(t, Some(held), true) == shell_words(t1, Some(held), false));
            assert(shell_words(t1, Some(held), false) == shell_words(t2, Some(held.push('\'')), false));
            assert(shell_words(t2, Some(held.push('\'')), false) == shell_words(
                rest,
                Some(held.push('\'')),
                true,
            ));
        } else {
            assert(t[0] == c);
            assert(t.skip(1) == rest);
        }
    }
}

proof fn lemma_read_escaped(w: Seq<char>, tail: Seq<char>)
    ensures
        shell_words(escaped(w) + tail, None, false) == shell_words(tail, Some(w), false),
{
    let e = Seq::<char>::empty();
    if w.len() > 0 && all_plain(w) {
        let s = w + tail;
        assert(is_plain(w[0]));
        assert(s[0] == w[0]);
        assert(s.skip(1) == w.skip(1) + tail);
        assert(all_plain(w.skip(1))) by {
            assert forall|i: int| 0 <= i < w.skip(1).len() implies is_plain(#[trigger] w.skip(1)[i]) by {
                assert(w.skip(1)[i] == w[i + 1]);
            }
        }
        lemma_read_plain(w.skip(1), tail, e.push(w[0]));
        assert(e.push(w[0]) + w.skip(1) == w);
    } else {
        let s = escaped(w) + tail;
        let t = quoted_body(w) + seq!['\''] + tail;
        assert(s == seq!['\''] + t);
        assert(s[0] == '\'');
        assert(s.skip(1) == t);
        lemma_read_quoted(w, tail, e);
        assert(e + w == w);
    }
}

/// A shell reads from a command line the words that it was made of.
pub proof fn law_command_line_reads_back(args: Seq<Seq<char>>)
    ensures
        shell_words(command_line(args), None, false) == Some(args),
    decreases args.len(),
{
    let f = |a: Seq<char>| escaped(a);
    let parts = args.map_values(f);
    if args.len() == 0 {
        assert(args == Seq::<Seq<char>>::empty());
    } else if args.len() == 1 {
        lemma_read_escaped(args[0], Seq::empty());
        assert(escaped(args[0]) + Seq::<char>::empty() == escaped(args[0]));
        assert(parts[0] == escaped(args[0]));
        assert(seq![args[0]] == args);
    } else {
        reveal_strlit(" ");
        let rest = args.skip(1);
        law_command_line_reads_back(rest);
        let tail = seq![' '] + command_line(rest);
        assert(parts.skip(1) == rest.map_values(f));
        assert(command_line(args) == escaped(args[0]) + tail);
        lemma_read_escaped(args[0], tail);
        assert(tail[0] == ' ');
        assert(tail.skip(1) == command_line(rest));
        assert(seq![args[0]] + rest == args);
    }
}

// ---------------------------------------------------------------------------
// The shell bridge

/// Why the bridge does not pass a command to the shell.
#[derive(Clone, Copy, PartialEq, Eq, Structural, Debug)]
pub enum BridgeError {
    MissingCommand,
    OnlyCd,
}

impl BridgeError {
    /// What is told of the error.
    pub open spec fn text(self) -> Seq<char> {
        match self {
            BridgeError::MissingCommand => "ct --shell-bridge: missing command"@,
            BridgeError::OnlyCd => "ct --shell-bridge: only 'cd' is supported in MVP"@,
        }
    }

    /// What is told of the error.
    pub fn message(&self) -> (r: String)
        ensures
            r@ == self.text(),
    {
        match self {
            BridgeError::MissingCommand => "ct --shell-bridge: missing command".to_string(),
            BridgeError::OnlyCd => "ct --shell-bridge: only 'cd' is supported in MVP".to_string(),
        }
    }
}

/// The line that makes the shell change its directory.
pub fn shell_bridge(args: &[String]) -> (r: Result<String, BridgeError>)
    ensures
        match r {
            Ok(line) => args@.len() > 0 && args@[0]@ == "cd"@ && line@ == "__CT_BUILTIN__ "@ + command_line(
                texts(args@),
            ),
            Err(BridgeError::MissingCommand) => args@.len() == 0,
            Err(BridgeError::OnlyCd) => args@.len() > 0 && args@[0]@ != "cd"@,
        },
{
    if args.len() == 0 {
        return Err(BridgeError::MissingCommand);
    }
    if !same(args[0].as_str(), "cd") {
        return Err(BridgeError::OnlyCd);
    }
    proof {
        reveal_strlit("cd");
        assert(is_plain('c') && is_plain('d'));
        assert(escaped("cd"@) == "cd"@);
    }
    let mut script: String = "cd".to_string();
    let ghost head = seq!["cd"@];
    let mut rest: Vec<String> = Vec::new();
    let mut i: usize = 1;
    while i < args.len()
        invariant
            1 <= i <= args@.len(),
            rest@.len() == i - 1,
            forall|j: int| 0 <= j < rest@.len() ==> (#[trigger] rest@[j])@ == args@[j + 1]@,
        decreases args@.len() - i,
    {
        rest.push(args[i].clone());
        i = i + 1;
    }
    push_args(&mut script, rest.as_slice(), Ghost(head));
    let mut line: String = "__CT_BUILTIN__ ".to_string();
    line.append(script.as_str());
    proof {
        let f = |a: Seq<char>| escaped(a);
        assert(texts(args@).map_values(f) == head + texts(rest@).map_values(f));
    }
    Ok(line)
}

} // verus!
