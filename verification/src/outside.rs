//! What the library takes on trust from other crates: regular expressions, JSON strings,
//! MD5 digests, the clock, and the decoding of bytes that may not be text.
use crate::number::is_digit;
use vstd::prelude::*;
use vstd::utf8::encode_utf8;

verus! {

// ---------------------------------------------------------------------------
// Regular expressions

/// A compiled regular expression.
#[verifier::external_type_specification]
#[verifier::external_body]
pub struct ExRegex(regex::Regex);

/// Why a pattern was not compiled.
#[verifier::external_type_specification]
#[verifier::external_body]
pub struct ExRegexError(regex::Error);

/// Whether a pattern compiles.
pub uninterp spec fn regex_compiles(pattern: Seq<char>) -> bool;

/// Whether a pattern matches somewhere in a text.
pub uninterp spec fn regex_matches(pattern: Seq<char>, text: Seq<char>) -> bool;

/// A text with every match of a pattern replaced.
pub uninterp spec fn regex_replaced(pattern: Seq<char>, text: Seq<char>, rep: Seq<char>) -> Seq<char>;

/// `regex::Regex::new` compiles a pattern, or fails; which of the two depends on the
/// pattern alone.
pub assume_specification[ regex::Regex::new ](re: &str) -> (r: Result<regex::Regex, regex::Error>)
    ensures
        r is Ok <==> regex_compiles(re@),
;

/// A pattern and what it was compiled to. `compile` is the only way to make one, so the two
/// belong together.
pub struct Pattern {
    source: String,
    regex: regex::Regex,
}

impl Pattern {
    /// The pattern as text.
    pub closed spec fn source(&self) -> Seq<char> {
        self.source@
    }

    /// Compiles a pattern, where that can be done.
    pub fn compile(source: &str) -> (r: Option<Pattern>)
        ensures
            r is Some <==> regex_compiles(source@),
            r matches Some(p) ==> p.source() == source@,
    {
        match regex::Regex::new(source) {
            Ok(regex) => Some(Pattern { source: source.to_string(), regex }),
            Err(_) => None,
        }
    }

    /// `regex::Regex::is_match`, on what `regex::Regex::new` made of the pattern, tells
    /// whether the pattern matches somewhere in the text; the answer depends on the pattern
    /// and the text alone.
    #[verifier::external_body]
    pub(crate) fn is_match(&self, text: &str) -> (r: bool)
        ensures
            r == regex_matches(self.source(), text@),
    {
        self.regex.is_match(text)
    }

    /// `regex::Regex::replace_all`, on what `regex::Regex::new` made of the pattern, replaces
    /// every match. The result depends on the pattern, the text and the replacement alone,
    /// and is the text itself where nothing matches.
    #[verifier::external_body]
    pub(crate) fn replace_all(&self, text: &str, rep: &str) -> (r: String)
        ensures
            r@ == regex_replaced(self.source(), text@, rep@),
            !regex_matches(self.source(), text@) ==> r@ == text@,
    {
        self.regex.replace_all(text, rep).into_owned()
    }
}

// ---------------------------------------------------------------------------
// JSON strings

/// Why a text was not read or written as JSON.
#[verifier::external_type_specification]
#[verifier::external_body]
pub struct ExJsonError(serde_json::Error);

/// A hexadecimal digit, in lower case.
pub open spec fn hex_digit(n: int) -> char {
    if n < 10 {
        ('0' as int + n) as char
    } else {
        ('a' as int + n - 10) as char
    }
}

/// One character as it stands in a JSON string.
pub open spec fn json_char(c: char) -> Seq<char> {
    if c == '"' || c == '\\' {
        seq!['\\', c]
    } else if c as int == 8 {
        seq!['\\', 'b']
    } else if c == '\t' {
        seq!['\\', 't']
    } else if c == '\n' {
        seq!['\\', 'n']
    } else if c as int == 12 {
        seq!['\\', 'f']
    } else if c == '\r' {
        seq!['\\', 'r']
    } else if (c as int) < 32 {
        seq!['\\', 'u', '0', '0', hex_digit(c as int / 16), hex_digit(c as int % 16)]
    } else {
        seq![c]
    }
}

/// The inside of a JSON string.
pub open spec fn json_chars(s: Seq<char>) -> Seq<char>
    decreases s.len(),
{
    if s.len() == 0 {
        Seq::empty()
    } else {
        json_chars(s.drop_last()) + json_char(s.last())
    }
}

/// A text as a JSON string.
pub open spec fn json_text(s: Seq<char>) -> Seq<char> {
    seq!['"'] + json_chars(s) + seq!['"']
}

/// The text that a JSON string stands for; none where it is no JSON string.
pub uninterp spec fn json_string(json: Seq<char>) -> Option<Seq<char>>;

/// `serde_json::to_string` writes a text as a JSON string: between quotes, with quotes,
/// backslashes and control characters escaped. It does not fail on a text, and
/// `serde_json::from_str` reads the text back.
#[verifier::external_body]
pub(crate) fn json_to_string(text: &str) -> (r: Result<String, serde_json::Error>)
    ensures
        r is Ok,
        r matches Ok(j) ==> j@ == json_text(text@) && json_string(j@) == Some(text@),
{
    serde_json::to_string(text)
}

/// `serde_json::from_str`, asked for a `String`, reads a JSON string with white space
/// allowed around it, or fails; the result depends on the text alone.
#[verifier::external_body]
pub(crate) fn json_from_str(json: &str) -> (r: Result<String, serde_json::Error>)
    ensures
        json_string(json@) == match r {
            Ok(s) => Some(s@),
            Err(_) => None,
        },
{
    serde_json::from_str::<String>(json)
}

// ---------------------------------------------------------------------------
// Digests

/// The MD5 digest of some bytes.
pub uninterp spec fn md5_digest(data: Seq<u8>) -> Seq<u8>;

/// `md5::compute` gives the MD5 digest, which depends on the bytes alone.
#[verifier::external_body]
pub(crate) fn md5_of(data: &[u8]) -> (r: [u8; 16])
    ensures
        r@ == md5_digest(data@),
{
    md5::compute(data).0
}

// ---------------------------------------------------------------------------
// The clock

/// The number that the two digits at `i` stand for.
pub open spec fn two_digits(s: Seq<char>, i: int) -> int {
    10 * (s[i] as int - 48) + (s[i + 1] as int - 48)
}

/// Whether `s` is a time in UTC as RFC 3339 writes it, with microseconds:
/// `2026-04-13T10:15:22.184392Z`. A year of more than four digits comes with a `+`.
pub open spec fn utc_stamp(s: Seq<char>) -> bool {
    let n = s.len() as int;
    &&& n >= 27
    &&& s[n - 23] == '-' && s[n - 20] == '-' && s[n - 17] == 'T'
    &&& s[n - 14] == ':' && s[n - 11] == ':' && s[n - 8] == '.'
    &&& s[n - 1] == 'Z'
    &&& forall|i: int|
        n - 27 <= i < n - 1 && i != n - 23 && i != n - 20 && i != n - 17 && i != n - 14 && i != n - 11 && i != n
            - 8 ==> is_digit(#[trigger] s[i])
    &&& 1 <= two_digits(s, n - 22) <= 12
    &&& 1 <= two_digits(s, n - 19) <= 31
    &&& two_digits(s, n - 16) <= 23
    &&& two_digits(s, n - 13) <= 59
    &&& two_digits(s, n - 10) <= 59
    &&& n > 27 ==> n > 28 && s[0] == '+' && forall|i: int| 1 <= i < n - 27 ==> is_digit(#[trigger] s[i])
}

/// `chrono::Utc::now` and `to_rfc3339_opts`, with microseconds and `Z`: a date and a time
/// of day, written out in full. What time it is, is not said.
#[verifier::external_body]
pub(crate) fn utc_now_text() -> (r: String)
    ensures
        utc_stamp(r@),
{
    chrono::Utc::now().to_rfc3339_opts(chrono::SecondsFormat::Micros, true)
}

// ---------------------------------------------------------------------------
// Bytes that may not be text

/// Some bytes as text, with what is not UTF-8 replaced.
pub uninterp spec fn lossy_text(data: Seq<u8>) -> Seq<char>;

/// `String::from_utf8_lossy` reads bytes as UTF-8 and replaces what is not. The result
/// depends on the bytes alone, and bytes that are UTF-8 give the text that they encode.
#[verifier::external_body]
pub(crate) fn from_utf8_lossy(data: &[u8]) -> (r: String)
    ensures
        r@ == lossy_text(data@),
        forall|t: Seq<char>| data@ == #[trigger] encode_utf8(t) ==> r@ == t,
{
    String::from_utf8_lossy(data).into_owned()
}

} // verus!
